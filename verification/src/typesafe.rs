//! Asking the judge: the questions it is asked, how large a request may be, what
//! its answers are read as, and when a failed call is made again.
//!
//! The judge returns calibrated judgments, never text. Questions in one request run
//! in parallel on the other side and cost a fraction of the same questions sent
//! separately, so everything independent goes out together.
use vstd::prelude::*;
use vstd::string::*;
use crate::chunk::{truncate, truncated};
use crate::json::{
    add_item, add_member, item_shapes, law_setting_a_member_keeps_the_others, list, member_from,
    member_shapes, no_items, no_members, object, set_member, string, with_member, Json, Shape,
};
use crate::llm::{backoff, backoff_ms};
use crate::numeral::{decimal, show, show_usize};
use crate::scan::{holds, match_at, str_contains};
use crate::text::{byte_len, byte_length, str_eq};
use crate::types::{EntityBinding, Real};

verus! {

/// Tokens the state of one request may take, together with its longest question.
pub const MAX_STATE_TOKENS: usize = 32_768;

/// Tokens a full request may take. This is a limit on the size of a request, not on
/// the account.
pub const MAX_REQUEST_TOKENS: usize = 65_536;

/// The limit on a request that holds hardly more than its state.
pub const MAX_INPUT_TOKENS: usize = MAX_STATE_TOKENS;

/// Calls that may fail in a row before none is tried any more.
///
/// Retrying is right for a blip and wrong for an outage: past this many failures
/// calls fail at once, while it is still useful to hear about.
pub const BREAKER_THRESHOLD: usize = 10;

/// Marks an error as the other side's verdict on the request itself.
pub const CLIENT_ERROR_TAG: &'static str = "[client-error] ";

/// Marks a request that was too large, so that a caller can split it.
pub const OVERSIZED_TAG: &'static str = "[oversized] ";

/// Characters allowed in one request before anything was observed: two to the token,
/// as dense as text was ever seen to be.
pub fn budget_chars() -> (r: usize)
    ensures
        r == MAX_INPUT_TOKENS * 2,
{
    MAX_INPUT_TOKENS * 2
}

pub open spec fn client_error(message: Seq<char>) -> bool {
    holds(message, CLIENT_ERROR_TAG@)
}

pub open spec fn oversized(message: Seq<char>) -> bool {
    holds(message, OVERSIZED_TAG@)
}

/// Is this error a verdict on the request, which sending it again cannot change?
pub fn is_client_error(message: &str) -> (r: bool)
    ensures
        r == client_error(message@),
{
    str_contains(message, CLIENT_ERROR_TAG)
}

/// Was the request refused for its size?
pub fn is_oversized(message: &str) -> (r: bool)
    ensures
        r == oversized(message@),
{
    str_contains(message, OVERSIZED_TAG)
}

// --------------------------------------------------------------- questions --

/// The size of one question in a request, in bytes: its id, its text, and the
/// punctuation around the two.
pub fn question_cost(id: &str, q: &Json) -> (r: u128)
    ensures
        r == byte_len(id@) + byte_len(q.shape().text()) + 8,
{
    let text = q.to_text();
    byte_length(id) + byte_length(text.as_str()) + 8
}

/// The size of a value in the state, in bytes.
pub fn state_cost(v: &Json) -> (r: u128)
    ensures
        r == byte_len(v.shape().text()),
{
    let text = v.to_text();
    byte_length(text.as_str())
}

/// A question: its kind, its instructions and what its answers mean.
pub open spec fn question(kind: Seq<char>, instructions: Seq<char>, criteria: Shape) -> Shape {
    Shape::Object(
        seq![
            ("criteria"@, criteria),
            ("instructions"@, Shape::Text(instructions)),
            ("type"@, Shape::Text(kind)),
        ],
    )
}

fn build_question(kind: &str, instructions: &str, criteria: Json) -> (r: Json)
    ensures
        r.shape() == question(kind@, instructions@, criteria.shape()),
{
    let mut q = no_members();
    let ghost c = criteria.shape();
    add_member(&mut q, "criteria", criteria);
    add_member(&mut q, "instructions", string(instructions));
    add_member(&mut q, "type", string(kind));
    assert(member_shapes(q@) =~= seq![
        ("criteria"@, c),
        ("instructions"@, Shape::Text(instructions@)),
        ("type"@, Shape::Text(kind@)),
    ]);
    object(q)
}

/// A yes/no question. `yes` and `no` describe the two outcomes, so that the judge
/// applies a definition rather than guessing at one.
pub fn noul(instructions: &str, yes: &str, no: &str) -> (r: Json)
    ensures
        r.shape() == question(
            "noul"@,
            instructions@,
            Shape::Object(seq![("false"@, Shape::Text(no@)), ("true"@, Shape::Text(yes@))]),
        ),
{
    let mut c = no_members();
    add_member(&mut c, "false", string(no));
    add_member(&mut c, "true", string(yes));
    assert(member_shapes(c@) =~= seq![
        ("false"@, Shape::Text(no@)),
        ("true"@, Shape::Text(yes@)),
    ]);
    let criteria = object(c);
    build_question("noul", instructions, criteria)
}

/// The first `n` options by their labels; a label given twice has its last meaning.
pub open spec fn labelled(options: Seq<(&str, &str)>, n: int) -> Seq<(Seq<char>, Shape)>
    decreases n,
{
    if n <= 0 {
        Seq::empty()
    } else {
        with_member(labelled(options, n - 1), options[n - 1].0@, Shape::Text(options[n - 1].1@))
    }
}

/// A question that selects one labelled option.
pub fn choice(instructions: &str, options: &[(&str, &str)]) -> (r: Json)
    ensures
        r.shape() == question(
            "choice"@,
            instructions@,
            Shape::Object(labelled(options@, options@.len() as int)),
        ),
{
    let mut c = no_members();
    let mut i: usize = 0;
    while i < options.len()
        invariant
            i <= options@.len(),
            member_shapes(c@) == labelled(options@, i as int),
        decreases options@.len() - i,
    {
        set_member(&mut c, options[i].0, string(options[i].1));
        i += 1;
    }
    let criteria = object(c);
    build_question("choice", instructions, criteria)
}

/// The levels of a score as values.
pub open spec fn levels_shape(levels: Seq<&str>) -> Seq<Shape> {
    levels.map_values(|l: &str| Shape::Text(l@))
}

/// A question that rates against ordered levels. Each level describes a concrete
/// situation that stands on its own.
pub fn score(instructions: &str, levels: &[&str]) -> (r: Json)
    ensures
        r.shape() == question(
            "score"@,
            instructions@,
            Shape::List(levels_shape(levels@)),
        ),
{
    let mut items = no_items();
    let mut i: usize = 0;
    assert(levels_shape(levels@).take(0) =~= Seq::<Shape>::empty());
    while i < levels.len()
        invariant
            i <= levels@.len(),
            item_shapes(items@) == levels_shape(levels@).take(i as int),
        decreases levels@.len() - i,
    {
        add_item(&mut items, string(levels[i]));
        assert(levels_shape(levels@).take(i + 1) =~= levels_shape(levels@).take(i as int).push(
            Shape::Text(levels@[i as int]@),
        ));
        i += 1;
    }
    assert(levels_shape(levels@).take(i as int) =~= levels_shape(levels@));
    let criteria = list(items);
    build_question("score", instructions, criteria)
}

/// What each binding of a passage to an entity means.
pub open spec fn binding_meaning(b: EntityBinding) -> Seq<char> {
    match b {
        EntityBinding::Same =>
            "It is that organisation itself, including an official department or office of it."@,
        EntityBinding::Related =>
            "It is a parent, member, subsidiary, federation, association, supplier, contractor or other related but different organisation."@,
        EntityBinding::Different =>
            "It is an unrelated organisation, or a different place or body that merely has a similar name."@,
        EntityBinding::Unresolved =>
            "The passage does not establish which organisation it is about."@,
    }
}

/// The options of the binding question.
pub open spec fn binding_criteria() -> Seq<(Seq<char>, Shape)> {
    seq![
        ("different"@, Shape::Text(binding_meaning(EntityBinding::Different))),
        ("related"@, Shape::Text(binding_meaning(EntityBinding::Related))),
        ("same"@, Shape::Text(binding_meaning(EntityBinding::Same))),
        ("unresolved"@, Shape::Text(binding_meaning(EntityBinding::Unresolved))),
    ]
}

pub open spec fn binding_instructions(entity: Seq<char>, topic: Seq<char>, subject: Seq<char>) -> Seq<
    char,
> {
    "What relationship does the organisation described in `"@ + subject + "` have to `"@ + entity
        + "`, a "@ + topic + "?"@
}

/// The entity-binding question: what relationship does the organisation that a
/// passage describes have to the entity that was asked about? `subject_ref` names
/// the part of the state that holds the text under judgment.
///
/// "Is this value attributed to this entity" is another question than "is this the
/// right organisation".
pub fn entity_binding(entity: &str, topic: &str, subject_ref: &str) -> (r: Json)
    ensures
        r.shape() == question(
            "choice"@,
            binding_instructions(entity@, topic@, subject_ref@),
            Shape::Object(binding_criteria()),
        ),
{
    let mut s = "What relationship does the organisation described in `".to_owned();
    s.append(subject_ref);
    s.append("` have to `");
    s.append(entity);
    s.append("`, a ");
    s.append(topic);
    s.append("?");
    let mut c = no_members();
    add_member(
        &mut c,
        "different",
        string(
            "It is an unrelated organisation, or a different place or body that merely has a similar name.",
        ),
    );
    add_member(
        &mut c,
        "related",
        string(
            "It is a parent, member, subsidiary, federation, association, supplier, contractor or other related but different organisation.",
        ),
    );
    add_member(
        &mut c,
        "same",
        string("It is that organisation itself, including an official department or office of it."),
    );
    add_member(
        &mut c,
        "unresolved",
        string("The passage does not establish which organisation it is about."),
    );
    assert(member_shapes(c@) =~= binding_criteria());
    let criteria = object(c);
    build_question("choice", s.as_str(), criteria)
}

/// Whatever the binding question is answered with is read back as the binding it
/// describes: each label has its own option, and there is no other.
pub proof fn law_binding_options_are_the_bindings(b: EntityBinding)
    ensures
        member_from(binding_criteria(), b.label(), 0) == Some(Shape::Text(binding_meaning(b))),
        forall|i: int|
            0 <= i < binding_criteria().len() ==> exists|k: EntityBinding|
                k.label() == #[trigger] binding_criteria()[i].0,
{
    reveal_strlit("same");
    reveal_strlit("related");
    reveal_strlit("different");
    reveal_strlit("unresolved");
    let c = binding_criteria();
    assert("same"@[0] == 's' && "related"@[0] == 'r' && "different"@[0] == 'd'
        && "unresolved"@[0] == 'u');
    reveal_with_fuel(member_from, 5);
    assert(EntityBinding::Different.label() == c[0].0);
    assert(EntityBinding::Related.label() == c[1].0);
    assert(EntityBinding::Same.label() == c[2].0);
    assert(EntityBinding::Unresolved.label() == c[3].0);
}

/// The first `n` questions by their ids; an id given twice has its last question.
pub open spec fn by_id(pairs: Seq<(String, Json)>, n: int) -> Seq<(Seq<char>, Shape)>
    decreases n,
{
    if n <= 0 {
        Seq::empty()
    } else {
        with_member(by_id(pairs, n - 1), pairs[n - 1].0@, pairs[n - 1].1.shape())
    }
}

/// The questions of a request, by their ids.
pub fn questions(pairs: &Vec<(String, Json)>) -> (r: Vec<(String, Json)>)
    ensures
        member_shapes(r@) == by_id(pairs@, pairs@.len() as int),
{
    let mut out = no_members();
    let mut i: usize = 0;
    while i < pairs.len()
        invariant
            i <= pairs@.len(),
            member_shapes(out@) == by_id(pairs@, i as int),
        decreases pairs@.len() - i,
    {
        let q = pairs[i].1.copy();
        set_member(&mut out, pairs[i].0.as_str(), q);
        i += 1;
    }
    out
}

// ------------------------------------------------------------------ asking --

/// The body of a request.
pub open spec fn body_of(
    state: Shape,
    model: Seq<char>,
    questions: Seq<(Seq<char>, Shape)>,
) -> Seq<(Seq<char>, Shape)> {
    seq![
        ("model"@, Shape::Text(model)),
        ("questions"@, Shape::Object(questions)),
        ("state"@, state),
    ]
}

pub open spec fn state_too_large(size: nat, budget: nat) -> Seq<char> {
    "[oversized] "@ + "state is "@ + decimal(size) + " characters, over the ~"@ + decimal(budget)
        + " the 32768-token state limit allows (measured 2026-09-18). Trim the state before sending — the remaining headroom is for questions. (TypeSafe rejects these with HTTP 400 max_tokens_exceeded.)"@
}

pub open spec fn request_too_large(size: nat, budget: nat) -> Seq<char> {
    "[oversized] "@ + "request is "@ + decimal(size) + " characters, over the ~"@ + decimal(budget)
        + " the 65536-token full-request limit allows (measured 2026-09-18). This is a request-size limit, not a credit problem: reduce state or batch fewer questions. (TypeSafe rejects these with HTTP 400 max_tokens_exceeded.)"@
}

pub open spec fn unavailable(failures: nat) -> Seq<char> {
    "TypeSafe has failed "@ + decimal(failures)
        + " calls in a row; treating it as unavailable and not retrying further. Check https://api.typesafe.ai status — a 503 model_unavailable or sustained overload is an outage on their side, not a problem with this request or your credit."@
}

/// The request for these questions, or why it is not sent: there are none, the state
/// or the whole request is larger than its budget, or the service has been failing.
pub open spec fn prepared(
    state: Shape,
    model: Seq<char>,
    questions: Seq<(Seq<char>, Shape)>,
    state_budget: nat,
    request_budget: nat,
    failures: nat,
) -> Result<Seq<(Seq<char>, Shape)>, Seq<char>> {
    let body = body_of(state, model, questions);
    let state_size = byte_len(state.text());
    let size = byte_len(Shape::Object(body).text());
    if questions.len() == 0 {
        Err("at least one question is required"@)
    } else if state_size > state_budget {
        Err(state_too_large(state_size, state_budget))
    } else if size > request_budget {
        Err(request_too_large(size, request_budget))
    } else if failures >= BREAKER_THRESHOLD {
        Err(unavailable(failures))
    } else {
        Ok(body)
    }
}

fn size_message(what: &str, size: u128, budget: usize, rest: &str) -> (s: String)
    ensures
        s@ == "[oversized] "@ + what@ + decimal(size as nat) + " characters, over the ~"@ + decimal(
            budget as nat,
        ) + rest@,
{
    let mut s = "[oversized] ".to_owned();
    s.append(what);
    let n = show(size);
    s.append(n.as_str());
    s.append(" characters, over the ~");
    let b = show_usize(budget);
    s.append(b.as_str());
    s.append(rest);
    s
}

/// Build the request for these questions, or say why it is not worth sending. The
/// budgets are in bytes of JSON text; `failures` counts the calls in a row that the
/// service has failed.
pub fn prepare(
    state: Json,
    model: &str,
    questions: Vec<(String, Json)>,
    state_budget: usize,
    request_budget: usize,
    failures: usize,
) -> (r: Result<Json, String>)
    ensures
        ({
            let p = prepared(
                state.shape(),
                model@,
                member_shapes(questions@),
                state_budget as nat,
                request_budget as nat,
                failures as nat,
            );
            match r {
                Ok(body) => p is Ok && body.shape() == Shape::Object(p->Ok_0),
                Err(e) => p is Err && e@ == p->Err_0,
            }
        }),
{
    assert(member_shapes(questions@).len() == questions@.len());
    if questions.len() == 0 {
        return Err("at least one question is required".to_owned());
    }
    let state_text = state.to_text();
    let state_size: u128 = byte_length(state_text.as_str());
    if state_size > state_budget as u128 {
        return Err(
            size_message(
                "state is ",
                state_size,
                state_budget,
                " the 32768-token state limit allows (measured 2026-09-18). Trim the state before sending — the remaining headroom is for questions. (TypeSafe rejects these with HTTP 400 max_tokens_exceeded.)",
            ),
        );
    }
    let ghost shapes = body_of(state.shape(), model@, member_shapes(questions@));
    let mut body = no_members();
    add_member(&mut body, "model", string(model));
    let asked = object(questions);
    add_member(&mut body, "questions", asked);
    add_member(&mut body, "state", state);
    assert(member_shapes(body@) =~= shapes);
    let body = object(body);
    let text = body.to_text();
    let size: u128 = byte_length(text.as_str());
    if size > request_budget as u128 {
        return Err(
            size_message(
                "request is ",
                size,
                request_budget,
                " the 65536-token full-request limit allows (measured 2026-09-18). This is a request-size limit, not a credit problem: reduce state or batch fewer questions. (TypeSafe rejects these with HTTP 400 max_tokens_exceeded.)",
            ),
        );
    }
    if failures >= BREAKER_THRESHOLD {
        let mut s = "TypeSafe has failed ".to_owned();
        let n = show_usize(failures);
        s.append(n.as_str());
        s.append(
            " calls in a row; treating it as unavailable and not retrying further. Check https://api.typesafe.ai status — a 503 model_unavailable or sustained overload is an outage on their side, not a problem with this request or your credit.",
        );
        return Err(s);
    }
    Ok(body)
}

/// A request that is over its budget is refused as oversized, and a request that is
/// within both is never refused for its size.
pub proof fn law_oversized_requests_are_marked(
    state: Shape,
    model: Seq<char>,
    questions: Seq<(Seq<char>, Shape)>,
    state_budget: nat,
    request_budget: nat,
    failures: nat,
)
    requires
        questions.len() > 0,
    ensures
        ({
            let p = prepared(state, model, questions, state_budget, request_budget, failures);
            let size = byte_len(Shape::Object(body_of(state, model, questions)).text());
            &&& byte_len(state.text()) > state_budget || size > request_budget ==> p is Err
                && oversized(p->Err_0)
            &&& byte_len(state.text()) <= state_budget && size <= request_budget && failures
                < BREAKER_THRESHOLD ==> p is Ok
        }),
{
    let state_size = byte_len(state.text());
    let size = byte_len(Shape::Object(body_of(state, model, questions)).text());
    lemma_tag_in_front(
        state_too_large(state_size, state_budget),
        "[oversized] "@,
        "state is "@ + decimal(state_size) + " characters, over the ~"@ + decimal(state_budget)
            + " the 32768-token state limit allows (measured 2026-09-18). Trim the state before sending — the remaining headroom is for questions. (TypeSafe rejects these with HTTP 400 max_tokens_exceeded.)"@,
    );
    lemma_tag_in_front(
        request_too_large(size, request_budget),
        "[oversized] "@,
        "request is "@ + decimal(size) + " characters, over the ~"@ + decimal(request_budget)
            + " the 65536-token full-request limit allows (measured 2026-09-18). This is a request-size limit, not a credit problem: reduce state or batch fewer questions. (TypeSafe rejects these with HTTP 400 max_tokens_exceeded.)"@,
    );
}

proof fn lemma_tag_in_front(message: Seq<char>, tag: Seq<char>, rest: Seq<char>)
    requires
        message =~= tag + rest,
    ensures
        holds(message, tag),
{
    assert(message.subrange(0, tag.len() as int) =~= tag);
    assert(match_at(message, 0, tag));
}

// ----------------------------------------------------------------- refusals --

/// A backend that was overloaded rather than a request that was wrong.
pub open spec fn transient(raw: Seq<char>) -> bool {
    holds(raw, "overloaded"@) || holds(raw, "capacity"@) || holds(raw, "try_again"@) || holds(
        raw,
        "temporarily"@,
    )
}

pub open spec fn too_large(raw: Seq<char>) -> bool {
    holds(raw, "max_tokens_exceeded"@)
}

/// A statement about the request that would be the same next time: any 4xx but a
/// rate limit, unless the body speaks of a passing condition.
pub open spec fn verdict_on_request(status: u16, raw: Seq<char>) -> bool {
    400 <= status <= 499 && status != 429 && !transient(raw)
}

pub open spec fn refusal(status: u16, status_text: Seq<char>, raw: Seq<char>) -> Seq<char> {
    (if verdict_on_request(status, raw) {
        "[client-error] "@
    } else {
        ""@
    }) + (if too_large(raw) {
        "[oversized] "@
    } else {
        ""@
    }) + "TypeSafe returned HTTP "@ + status_text + ": "@ + truncated(raw, 400) + (if too_large(
        raw,
    ) {
        " — the request exceeded the 32768-token per-request limit. This is a size limit, not an account-credit problem. The chars-per-token estimate has been reset to the conservative seed."@
    } else {
        ""@
    })
}

/// What a response that is not a success says.
#[derive(Debug)]
pub struct Refusal {
    pub message: String,
    /// The estimate of characters to the token goes back to its start.
    pub reset_ratio: bool,
}

/// Read a response by its status: `None` for a success, whose body holds answers.
/// `status_text` is the status as it is shown.
pub fn refused(status: u16, status_text: &str, raw: &str) -> (r: Option<Refusal>)
    ensures
        match r {
            None => 200 <= status <= 299,
            Some(f) => !(200 <= status <= 299) && f.message@ == refusal(
                status,
                status_text@,
                raw@,
            ) && f.reset_ratio == too_large(raw@),
        },
{
    if 200 <= status && status <= 299 {
        return None;
    }
    let passing = str_contains(raw, "overloaded") || str_contains(raw, "capacity") || str_contains(
        raw,
        "try_again",
    ) || str_contains(raw, "temporarily");
    let client = 400 <= status && status <= 499 && status != 429 && !passing;
    let large = str_contains(raw, "max_tokens_exceeded");
    let mut s = if client {
        "[client-error] ".to_owned()
    } else {
        "".to_owned()
    };
    if large {
        s.append("[oversized] ");
    } else {
        s.append("");
    }
    s.append("TypeSafe returned HTTP ");
    s.append(status_text);
    s.append(": ");
    s.append(truncate(raw, 400));
    if large {
        s.append(
            " — the request exceeded the 32768-token per-request limit. This is a size limit, not an account-credit problem. The chars-per-token estimate has been reset to the conservative seed.",
        );
    } else {
        s.append("");
    }
    Some(Refusal { message: s, reset_ratio: large })
}

/// A verdict on the request is marked as one, and a refusal for size as that: the
/// marks survive in the message.
pub proof fn law_refusals_carry_their_marks(status: u16, status_text: Seq<char>, raw: Seq<char>)
    ensures
        verdict_on_request(status, raw) ==> client_error(refusal(status, status_text, raw)),
        too_large(raw) ==> oversized(refusal(status, status_text, raw)),
{
    let m = refusal(status, status_text, raw);
    let a = if verdict_on_request(status, raw) {
        "[client-error] "@
    } else {
        ""@
    };
    let b = if too_large(raw) {
        "[oversized] "@
    } else {
        ""@
    };
    let tail = "TypeSafe returned HTTP "@ + status_text + ": "@ + truncated(raw, 400) + (
    if too_large(raw) {
        " — the request exceeded the 32768-token per-request limit. This is a size limit, not an account-credit problem. The chars-per-token estimate has been reset to the conservative seed."@
    } else {
        ""@
    });
    assert(m =~= a + (b + tail));
    if verdict_on_request(status, raw) {
        lemma_tag_in_front(m, "[client-error] "@, b + tail);
    }
    if too_large(raw) {
        assert(m.subrange(a.len() as int, (a.len() + b.len()) as int) =~= b);
        assert(match_at(m, a.len() as int, b));
    }
}

// ------------------------------------------------------------------ retries --

/// What comes after an attempt that failed.
#[derive(Debug, Clone, Copy, PartialEq, Eq, Structural)]
pub enum Step {
    /// The call has failed.
    Stop,
    /// Wait this many milliseconds and try again.
    Wait(u64),
}

/// The wait before the next attempt: doubling up to a ceiling, with the clock's
/// milliseconds as jitter, so that concurrent calls do not all return at once.
pub open spec fn wait_before(attempt: int, millis: u32) -> int {
    backoff(attempt) + (millis as int) % backoff(attempt)
}

/// How many calls in a row the service has failed.
#[derive(Debug, Clone, Copy, PartialEq, Eq, Structural)]
pub struct Breaker {
    pub failures: usize,
}

impl Breaker {
    /// No call has failed yet.
    pub fn new() -> (r: Self)
        ensures
            r.failures == 0,
    {
        Breaker { failures: 0 }
    }

    /// A call was answered.
    pub fn succeeded(&mut self)
        ensures
            final(self).failures == 0,
    {
        self.failures = 0;
    }

    /// An attempt failed, after `failed` others at the same call. A verdict on the
    /// request ends the call and says nothing about the health of the service;
    /// running out of attempts counts against it. `millis` is the clock's part of
    /// the second.
    pub fn heard(&mut self, message: &str, failed: usize, max_retries: usize, millis: u32) -> (r: Step)
        requires
            failed <= max_retries,
        ensures
            client_error(message@) ==> r == Step::Stop && final(self).failures == 0,
            !client_error(message@) && failed < max_retries ==> r == Step::Wait(
                wait_before(failed + 1, millis) as u64,
            ) && final(self).failures == old(self).failures,
            !client_error(message@) && failed == max_retries ==> r == Step::Stop
                && final(self).failures == old(self).failures.wrapping_add(1),
    {
        if is_client_error(message) {
            self.failures = 0;
            return Step::Stop;
        }
        if failed < max_retries {
            let base: u64 = backoff_ms(failed + 1);
            assert(500 <= base <= 8_000);
            return Step::Wait(base + millis as u64 % base);
        }
        self.failures = self.failures.wrapping_add(1);
        Step::Stop
    }

    /// Has the service failed so often that calls are no longer made?
    pub fn is_open(&self) -> (r: bool)
        ensures
            r == (self.failures >= BREAKER_THRESHOLD),
    {
        self.failures >= BREAKER_THRESHOLD
    }
}

/// A wait is never shorter than the backoff, and less than twice as long.
pub proof fn law_jitter_stays_below_the_backoff(attempt: int, millis: u32)
    requires
        attempt > 0,
    ensures
        backoff(attempt) <= wait_before(attempt, millis) < 2 * backoff(attempt),
{
    assert(backoff(attempt) >= 500);
    vstd::arithmetic::div_mod::lemma_mod_bound(millis as int, backoff(attempt));
}

// ------------------------------------------------------------------ answers --

/// One answer of the judge.
#[derive(Debug)]
pub struct Answer {
    pub noul: Real,
    pub choice: String,
    pub score: Real,
    pub confidence: Real,
    /// Each option once.
    pub probabilities: Vec<(String, Real)>,
}

/// Answers by the ids of their questions, each id once.
#[derive(Debug)]
pub struct Answers {
    pub answers: Vec<(String, Answer)>,
}

/// The answer to one question.
pub open spec fn answer_from(v: Seq<(String, Answer)>, id: Seq<char>, i: int) -> Option<Answer>
    decreases v.len() - i,
{
    if i >= v.len() || i < 0 {
        None
    } else if v[i].0@ == id {
        Some(v[i].1)
    } else {
        answer_from(v, id, i + 1)
    }
}

/// The probability of one option.
pub open spec fn chance_from(v: Seq<(String, Real)>, option: Seq<char>, i: int) -> Option<Real>
    decreases v.len() - i,
{
    if i >= v.len() || i < 0 {
        None
    } else if v[i].0@ == option {
        Some(v[i].1)
    } else {
        chance_from(v, option, i + 1)
    }
}

/// A number from 0 to 1. Both zeros count; no infinity and nothing that is not a
/// number does.
pub open spec fn is_chance(r: Real) -> bool {
    0 <= r.rank() <= 0x3FF0_0000_0000_0000
}

fn within_unit(r: Real) -> (b: bool)
    ensures
        b == is_chance(r),
{
    r.bits <= 0x3FF0_0000_0000_0000 || r.bits == 0x8000_0000_0000_0000
}

impl Answers {
    /// The answer to one question.
    pub open spec fn at(self, id: Seq<char>) -> Option<Answer> {
        answer_from(self.answers@, id, 0)
    }

    fn find(&self, id: &str) -> (r: Option<&Answer>)
        ensures
            match r {
                Some(a) => self.at(id@) == Some(*a),
                None => self.at(id@) is None,
            },
    {
        let mut i: usize = 0;
        while i < self.answers.len()
            invariant
                i <= self.answers@.len(),
                self.at(id@) == answer_from(self.answers@, id@, i as int),
            decreases self.answers@.len() - i,
        {
            if str_eq(self.answers[i].0.as_str(), id) {
                return Some(&self.answers[i].1);
            }
            i += 1;
        }
        None
    }

    /// Probability of yes, or 0 when the question was not answered. Only for
    /// questions whose low end is the safe reading.
    pub fn noul(&self, id: &str) -> (r: Real)
        ensures
            r == (match self.at(id@) {
                Some(a) => a.noul,
                None => Real { bits: 0 },
            }),
    {
        self.noul_or(id, Real { bits: 0 })
    }

    /// Probability of yes, or `missing` when the question was not answered.
    pub fn noul_or(&self, id: &str, missing: Real) -> (r: Real)
        ensures
            r == (match self.at(id@) {
                Some(a) => a.noul,
                None => missing,
            }),
    {
        match self.find(id) {
            Some(a) => a.noul,
            None => missing,
        }
    }

    /// Are the numbers of an answer usable? A missing answer is not.
    pub fn is_sane(&self, id: &str) -> (r: bool)
        ensures
            r == (match self.at(id@) {
                Some(a) => is_chance(a.noul) && is_chance(a.confidence) && forall|i: int|
                    0 <= i < a.probabilities@.len() ==> is_chance(
                        (#[trigger] a.probabilities@[i]).1,
                    ),
                None => false,
            }),
    {
        match self.find(id) {
            Some(a) => {
                if !within_unit(a.noul) || !within_unit(a.confidence) {
                    return false;
                }
                let mut i: usize = 0;
                while i < a.probabilities.len()
                    invariant
                        i <= a.probabilities@.len(),
                        forall|k: int|
                            0 <= k < i ==> is_chance((#[trigger] a.probabilities@[k]).1),
                        self.at(id@) == Some(*a),
                    decreases a.probabilities@.len() - i,
                {
                    if !within_unit(a.probabilities[i].1) {
                        assert(!is_chance(a.probabilities@[i as int].1));
                        return false;
                    }
                    i += 1;
                }
                true
            },
            None => false,
        }
    }

    /// The rating, or 0 when the question was not answered.
    pub fn score(&self, id: &str) -> (r: Real)
        ensures
            r == (match self.at(id@) {
                Some(a) => a.score,
                None => Real { bits: 0 },
            }),
    {
        match self.find(id) {
            Some(a) => a.score,
            None => Real { bits: 0 },
        }
    }

    /// The option chosen, or nothing when the question was not answered.
    pub fn choice(&self, id: &str) -> (r: String)
        ensures
            r@ == (match self.at(id@) {
                Some(a) => a.choice@,
                None => Seq::empty(),
            }),
    {
        match self.find(id) {
            Some(a) => a.choice.as_str().to_owned(),
            None => {
                let s = String::new();
                assert(s@ =~= Seq::<char>::empty());
                s
            },
        }
    }

    /// The judge's own rating of its answer, or 0 when there is none.
    pub fn confidence(&self, id: &str) -> (r: Real)
        ensures
            r == (match self.at(id@) {
                Some(a) => a.confidence,
                None => Real { bits: 0 },
            }),
    {
        match self.find(id) {
            Some(a) => a.confidence,
            None => Real { bits: 0 },
        }
    }

    /// The probability given to one option, or 0 when the answer or the option is
    /// absent.
    pub fn probability(&self, id: &str, option: &str) -> (r: Real)
        ensures
            r == (match self.at(id@) {
                Some(a) => match chance_from(a.probabilities@, option@, 0) {
                    Some(p) => p,
                    None => Real { bits: 0 },
                },
                None => Real { bits: 0 },
            }),
    {
        match self.find(id) {
            Some(a) => {
                let mut i: usize = 0;
                while i < a.probabilities.len()
                    invariant
                        i <= a.probabilities@.len(),
                        chance_from(a.probabilities@, option@, 0) == chance_from(
                            a.probabilities@,
                            option@,
                            i as int,
                        ),
                        self.at(id@) == Some(*a),
                    decreases a.probabilities@.len() - i,
                {
                    if str_eq(a.probabilities[i].0.as_str(), option) {
                        return a.probabilities[i].1;
                    }
                    i += 1;
                }
                Real { bits: 0 }
            },
            None => Real { bits: 0 },
        }
    }
}

// ----------------------------------------------------------------- counters --

/// What the calls have used so far.
#[derive(Debug, Clone, Copy, PartialEq, Eq, Structural)]
pub struct JevCounters {
    pub requests: usize,
    pub input_tokens: usize,
}

impl JevCounters {
    /// Nothing used.
    pub fn new() -> (r: Self)
        ensures
            r.requests == 0,
            r.input_tokens == 0,
    {
        JevCounters { requests: 0, input_tokens: 0 }
    }

    /// A call was answered and reported its tokens. True when the report says
    /// something about how many characters make a token.
    pub fn note(&mut self, input_tokens: usize) -> (r: bool)
        ensures
            final(self).requests == old(self).requests.wrapping_add(1),
            final(self).input_tokens == old(self).input_tokens.wrapping_add(input_tokens),
            r == (input_tokens > 0),
    {
        self.requests = self.requests.wrapping_add(1);
        self.input_tokens = self.input_tokens.wrapping_add(input_tokens);
        input_tokens > 0
    }
}

// -------------------------------------------------------------------- asking --

/// A request carries the state, the model and every question under its id, the last one where
/// an id is given twice; it is sent whenever it has a question, keeps both budgets, and the
/// service has not been failing.
pub proof fn law_a_request_carries_its_questions(
    state: Shape,
    model: Seq<char>,
    pairs: Seq<(String, Json)>,
    k: int,
    state_budget: nat,
    request_budget: nat,
    failures: nat,
)
    requires
        0 <= k < pairs.len(),
        forall|j: int| k < j < pairs.len() ==> (#[trigger] pairs[j]).0@ != pairs[k].0@,
    ensures
        by_id(pairs, pairs.len() as int).contains((pairs[k].0@, pairs[k].1.shape())),
        prepared(
            state,
            model,
            by_id(pairs, pairs.len() as int),
            state_budget,
            request_budget,
            failures,
        ) matches Ok(b) ==> Shape::Object(b).says("state"@, state) && Shape::Object(b).says(
            "model"@,
            Shape::Text(model),
        ) && Shape::Object(b).says(
            "questions"@,
            Shape::Object(by_id(pairs, pairs.len() as int)),
        ) && byte_len(state.text()) <= state_budget && byte_len(Shape::Object(b).text())
            <= request_budget && failures < BREAKER_THRESHOLD,
        byte_len(state.text()) <= state_budget && byte_len(
            Shape::Object(body_of(state, model, by_id(pairs, pairs.len() as int))).text(),
        ) <= request_budget && failures < BREAKER_THRESHOLD ==> prepared(
            state,
            model,
            by_id(pairs, pairs.len() as int),
            state_budget,
            request_budget,
            failures,
        ) is Ok,
{
    let q = by_id(pairs, pairs.len() as int);
    lemma_asked(pairs, pairs.len() as int, k);
    let b = body_of(state, model, q);
    assert(b[0] == ("model"@, Shape::Text(model)));
    assert(b[1] == ("questions"@, Shape::Object(q)));
    assert(b[2] == ("state"@, state));
}

proof fn lemma_asked(pairs: Seq<(String, Json)>, n: int, k: int)
    requires
        0 <= k < n <= pairs.len(),
        forall|j: int| k < j < n ==> (#[trigger] pairs[j]).0@ != pairs[k].0@,
    ensures
        by_id(pairs, n).contains((pairs[k].0@, pairs[k].1.shape())),
    decreases n,
{
    law_setting_a_member_keeps_the_others(
        by_id(pairs, n - 1),
        pairs[n - 1].0@,
        pairs[n - 1].1.shape(),
    );
    if k < n - 1 {
        assert(pairs[n - 1].0@ != pairs[k].0@);
        lemma_asked(pairs, n - 1, k);
        assert(by_id(pairs, n - 1).contains((pairs[k].0@, pairs[k].1.shape())));
    }
}

/// An answer is found by the id of its question, the first where there are two, and an option
/// by its label.
pub proof fn law_answers_are_found_by_their_ids(
    v: Seq<(String, Answer)>,
    id: Seq<char>,
    i: int,
)
    requires
        0 <= i <= v.len(),
    ensures
        forall|k: int|
            i <= k < v.len() && (#[trigger] v[k]).0@ == id && (forall|j: int|
                i <= j < k ==> (#[trigger] v[j]).0@ != id) ==> answer_from(v, id, i) == Some(v[k].1),
        (forall|k: int| i <= k < v.len() ==> (#[trigger] v[k]).0@ != id) ==> answer_from(v, id, i)
            is None,
    decreases v.len() - i,
{
    if i < v.len() && v[i].0@ != id {
        law_answers_are_found_by_their_ids(v, id, i + 1);
    }
}

/// Every option of a choice stands under its label with its meaning, the last one where a
/// label is given twice.
pub proof fn law_options_keep_their_meaning(options: Seq<(&str, &str)>, n: int, k: int)
    requires
        0 <= k < n <= options.len(),
        forall|j: int| k < j < n ==> (#[trigger] options[j]).0@ != options[k].0@,
    ensures
        labelled(options, n).contains((options[k].0@, Shape::Text(options[k].1@))),
    decreases n,
{
    law_setting_a_member_keeps_the_others(
        labelled(options, n - 1),
        options[n - 1].0@,
        Shape::Text(options[n - 1].1@),
    );
    if k < n - 1 {
        assert(options[n - 1].0@ != options[k].0@);
        law_options_keep_their_meaning(options, n - 1, k);
        assert(labelled(options, n - 1).contains((options[k].0@, Shape::Text(options[k].1@))));
    }
}

/// A refusal of the request itself is any client error but a rate limit that does not speak of
/// a passing condition; everything else may pass and is worth another try.
pub proof fn law_passing_conditions_are_no_verdict(status: u16, raw: Seq<char>)
    ensures
        status == 429 ==> !verdict_on_request(status, raw),
        status < 400 || status >= 500 ==> !verdict_on_request(status, raw),
        holds(raw, "overloaded"@) || holds(raw, "capacity"@) || holds(raw, "try_again"@) || holds(
            raw,
            "temporarily"@,
        ) ==> !verdict_on_request(status, raw),
        400 <= status < 500 && status != 429 && !holds(raw, "overloaded"@) && !holds(
            raw,
            "capacity"@,
        ) && !holds(raw, "try_again"@) && !holds(raw, "temporarily"@) ==> verdict_on_request(
            status,
            raw,
        ),
{
}

} // verus!
