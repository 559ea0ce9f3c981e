//! Settings: credentials, endpoints, and the knobs that govern how hard the scout
//! digs.
//!
//! Nothing is compiled in. Every credential arrives from a flag or an environment
//! variable, and flags win.
use vstd::prelude::*;
use vstd::string::*;
use crate::scan::{
    contains, ends, ends_with, find, find_from, holds, index_from, index_of, starts, starts_with,
    trim, trim_str,
};
use crate::text::{from_chars, is_digit, push_range, push_str, sub_chars, to_chars};
use crate::types::Real;

verus! {

pub const DEFAULT_TYPESAFE_ENDPOINT: &'static str = "https://api.typesafe.ai/v1/systemone";
pub const TYPESAFE_MODEL: &'static str = "jev-latest";
pub const DEFAULT_LLM_ENDPOINT: &'static str = "https://openrouter.ai/api/v1/chat/completions";
pub const DEFAULT_LLM_MODEL: &'static str = "google/gemma-4-31b-it";

/// What the command line says of each credential and endpoint.
pub struct Sources<'a> {
    pub typesafe_key: Option<&'a str>,
    pub typesafe_endpoint: Option<&'a str>,
    pub llm_key: Option<&'a str>,
    pub llm_endpoint: Option<&'a str>,
    pub llm_model: Option<&'a str>,
    pub planner_model: Option<&'a str>,
    pub planner_endpoint: Option<&'a str>,
    pub planner_key: Option<&'a str>,
    pub jina_key: Option<&'a str>,
}

/// Resolved credentials and endpoints for one run.
#[derive(Debug, Clone)]
pub struct Credentials {
    pub typesafe_key: String,
    pub typesafe_endpoint: String,
    pub llm_key: String,
    pub llm_endpoint: String,
    pub llm_model: String,
    pub planner_model: String,
    pub planner_endpoint: String,
    pub planner_key: String,
    /// Present only when supplied. Its presence is what selects the Jina backend.
    pub jina_key: Option<String>,
}

// ----------------------------------------------------------------- values --

/// A pair of this quote around `t`.
pub open spec fn quoted_by(t: Seq<char>, q: char) -> bool {
    t.len() >= 2 && t[0] == q && t.last() == q
}

/// A configured value without surrounding white space or one matching pair of
/// quotes.
pub open spec fn unquoted(v: Seq<char>) -> Seq<char> {
    let t = trim(v);
    if quoted_by(t, '\'') || quoted_by(t, '"') {
        trim(t.subrange(1, t.len() - 1))
    } else {
        t
    }
}

/// A configured value without surrounding white space or one matching pair of
/// quotes.
pub fn unquote(v: &str) -> (r: &str)
    ensures
        r@ == unquoted(v@),
{
    let t = trim_str(v);
    let n: usize = t.unicode_len();
    if n >= 2 {
        let a = t.get_char(0);
        let b = t.get_char(n - 1);
        if (a == '\'' || a == '"') && a == b {
            return trim_str(t.substring_char(1, n - 1));
        }
    }
    t
}

/// A value that says something.
pub open spec fn supplied(v: Option<Seq<char>>) -> Option<Seq<char>> {
    match v {
        Some(s) => if unquoted(s).len() > 0 {
            Some(unquoted(s))
        } else {
            None
        },
        None => None,
    }
}

/// The flag where it says something, else the environment where that does.
pub open spec fn picked(flag: Option<Seq<char>>, env: Option<Seq<char>>) -> Option<Seq<char>> {
    match supplied(flag) {
        Some(v) => Some(v),
        None => supplied(env),
    }
}

/// The text of an optional string slice.
pub open spec fn opt(v: Option<&str>) -> Option<Seq<char>> {
    match v {
        Some(s) => Some(s@),
        None => None,
    }
}

/// The text of an optional string.
pub open spec fn opt_string(v: Option<String>) -> Option<Seq<char>> {
    match v {
        Some(s) => Some(s@),
        None => None,
    }
}

/// Pick a value, preferring the flag over the environment. A blank value counts
/// as none.
pub fn pick(flag: Option<&str>, env: Option<&str>) -> (r: Option<String>)
    ensures
        opt_string(r) == picked(opt(flag), opt(env)),
{
    match flag {
        Some(v) => {
            let t = unquote(v);
            if t.unicode_len() > 0 {
                return Some(t.to_owned());
            }
        },
        None => {},
    }
    match env {
        Some(v) => {
            let t = unquote(v);
            if t.unicode_len() > 0 {
                return Some(t.to_owned());
            }
        },
        None => {},
    }
    None
}

// -------------------------------------------------------------- endpoints --

/// Where the digits that start at `i` end.
pub open spec fn digits_end(s: Seq<char>, i: int) -> int
    decreases s.len() - i,
{
    if 0 <= i < s.len() && is_digit(s[i]) {
        digits_end(s, i + 1)
    } else {
        i
    }
}

/// The authority of an address ends at `i`.
pub open spec fn authority_ends(s: Seq<char>, i: int) -> bool {
    i == s.len() || (0 <= i < s.len() && (s[i] == '/' || s[i] == '?' || s[i] == '#'))
}

/// The address names exactly this host behind its scheme, with or without a port and
/// with nothing else beside it.
pub open spec fn names_host(url: Seq<char>, host: Seq<char>) -> bool {
    let i = host.len() as int;
    &&& starts(url, host)
    &&& authority_ends(url, i) || (i < url.len() && url[i] == ':' && authority_ends(
        url,
        digits_end(url, i + 1),
    ))
}

/// HTTPS, or plainly local.
pub open spec fn is_safe(url: Seq<char>) -> bool {
    ||| starts(url, "https://"@)
    ||| names_host(url, "http://127.0.0.1"@)
    ||| names_host(url, "http://localhost"@)
}

fn ends_authority(v: &[char], i: usize) -> (r: bool)
    requires
        i <= v@.len(),
    ensures
        r == authority_ends(v@, i as int),
{
    i == v.len() || v[i] == '/' || v[i] == '?' || v[i] == '#'
}

fn is_host(v: &[char], host: &str) -> (r: bool)
    ensures
        r == names_host(v@, host@),
{
    if !starts_with(v, host) {
        return false;
    }
    let i: usize = host.unicode_len();
    if ends_authority(v, i) {
        return true;
    }
    if v[i] != ':' {
        return false;
    }
    let mut k: usize = i + 1;
    while k < v.len() && '0' <= v[k] && v[k] <= '9'
        invariant
            i < k <= v@.len(),
            digits_end(v@, k as int) == digits_end(v@, i + 1),
        decreases v@.len() - k,
    {
        k += 1;
    }
    ends_authority(v, k)
}

pub open spec fn unsafe_message(name: Seq<char>, url: Seq<char>) -> Seq<char> {
    name + " must be https:// (or a localhost address); got "@ + url
}

/// Reject an endpoint that is not HTTPS unless it is plainly local: credentials
/// ride on every request to it.
pub fn validate_endpoint(name: &str, url: &str) -> (r: Result<(), String>)
    ensures
        r is Ok <==> is_safe(url@),
        r matches Err(e) ==> e@ == unsafe_message(name@, url@),
{
    let v = to_chars(url);
    if starts_with(&v, "https://") || is_host(&v, "http://127.0.0.1") || is_host(
        &v,
        "http://localhost",
    ) {
        return Ok(());
    }
    let mut e = name.to_owned();
    e.append(" must be https:// (or a localhost address); got ");
    e.append(url);
    Err(e)
}

/// `s` without its trailing slashes.
pub open spec fn without_slashes(s: Seq<char>) -> Seq<char>
    decreases s.len(),
{
    if s.len() > 0 && s.last() == '/' {
        without_slashes(s.drop_last())
    } else {
        s
    }
}

fn strip_slashes(v: &[char], n: usize) -> (r: Vec<char>)
    requires
        n <= v@.len(),
    ensures
        r@ == without_slashes(v@.take(n as int)),
{
    let mut end: usize = n;
    while end > 0 && v[end - 1] == '/'
        invariant
            end <= n <= v@.len(),
            without_slashes(v@.take(end as int)) == without_slashes(v@.take(n as int)),
        decreases end,
    {
        assert(v@.take(end as int).drop_last() =~= v@.take(end - 1));
        end -= 1;
    }
    let r = sub_chars(v, 0, end);
    assert(r@ =~= v@.take(end as int));
    r
}

/// Where the query of an address starts, or its end.
pub open spec fn query_at(url: Seq<char>) -> int {
    match index_from(url, 0, '?') {
        Some(i) => i,
        None => url.len() as int,
    }
}

/// The path of an address ends in the chat completions path, but for one optional
/// trailing slash and the query.
pub open spec fn is_chat(url: Seq<char>) -> bool {
    let path = url.take(query_at(url));
    ||| ends(path, "/chat/completions"@)
    ||| path.len() > 0 && path.last() == '/' && ends(path.drop_last(), "/chat/completions"@)
}

/// What follows the scheme.
pub open spec fn after_scheme(base: Seq<char>) -> Seq<char> {
    match find_from(base, 0, "://"@) {
        Some(i) => base.subrange(i + 3, base.len() as int),
        None => base,
    }
}

/// A corrected form of an address that lacks the chat completions path.
pub open spec fn suggestion(url: Seq<char>) -> Seq<char> {
    let base = without_slashes(url.take(query_at(url)));
    let query = url.subrange(query_at(url), url.len() as int);
    if ends(base, "/chat"@) {
        base + "/completions"@ + query
    } else if !holds(after_scheme(base), "/"@) {
        base + "/v1/chat/completions"@ + query
    } else {
        base + "/chat/completions"@ + query
    }
}

fn query_start(v: &[char]) -> (r: usize)
    ensures
        r == query_at(v@),
        r <= v@.len(),
{
    match index_of(v, 0, '?') {
        Some(i) => i,
        None => v.len(),
    }
}

/// A hint for an address that is missing the chat completions path: `/chat` gets
/// its second half, a bare host the whole path with its version, anything else
/// the path.
pub fn suggest_chat_endpoint(url: &str) -> (r: String)
    ensures
        r@ == suggestion(url@),
{
    let v = to_chars(url);
    let q = query_start(&v);
    let base = strip_slashes(&v, q);
    proof {
        reveal_strlit("://");
    }
    let rest = match find(&base, 0, "://") {
        Some(i) => sub_chars(&base, i + 3, base.len()),
        None => sub_chars(&base, 0, base.len()),
    };
    assert(rest@ =~= after_scheme(base@));
    let mut out = sub_chars(&base, 0, base.len());
    assert(out@ =~= base@);
    if ends_with(&base, "/chat") {
        push_str(&mut out, "/completions");
    } else if !contains(&rest, "/") {
        push_str(&mut out, "/v1/chat/completions");
    } else {
        push_str(&mut out, "/chat/completions");
    }
    push_range(&mut out, &v, q, v.len());
    from_chars(&out)
}

pub open spec fn incomplete_message(name: Seq<char>, url: Seq<char>) -> Seq<char> {
    name + " requires the full OpenAI-compatible chat completions URL; got: "@ + url
        + "\nThe path must end with /chat/completions. Did you mean:\n  "@ + suggestion(url)
}

/// Why an endpoint is refused, if it is: an unsafe scheme first, then a missing
/// chat completions path.
pub open spec fn chat_refusal(name: Seq<char>, url: Seq<char>) -> Option<Seq<char>> {
    if !is_safe(url) {
        Some(unsafe_message(name, url))
    } else if !is_chat(url) {
        Some(incomplete_message(name, url))
    } else {
        None
    }
}

/// Require the full address of an OpenAI-compatible chat completions endpoint. A
/// refusal names the flag, shows the address and suggests the corrected form.
pub fn validate_chat_endpoint(name: &str, url: &str) -> (r: Result<(), String>)
    ensures
        match r {
            Ok(_) => chat_refusal(name@, url@) is None,
            Err(e) => chat_refusal(name@, url@) == Some(e@),
        },
{
    match validate_endpoint(name, url) {
        Ok(_) => {},
        Err(e) => {
            return Err(e);
        },
    }
    let v = to_chars(url);
    let q = query_start(&v);
    let path = sub_chars(&v, 0, q);
    assert(path@ =~= v@.take(q as int));
    if ends_with(&path, "/chat/completions") {
        return Ok(());
    }
    if q > 0 && path[q - 1] == '/' {
        let bare = sub_chars(&path, 0, q - 1);
        assert(bare@ =~= path@.drop_last());
        if ends_with(&bare, "/chat/completions") {
            return Ok(());
        }
    }
    let hint = suggest_chat_endpoint(url);
    let mut e = name.to_owned();
    e.append(" requires the full OpenAI-compatible chat completions URL; got: ");
    e.append(url);
    e.append("\nThe path must end with /chat/completions. Did you mean:\n  ");
    e.append(hint.as_str());
    Err(e)
}

/// What follows a part without a question mark is where a query can start.
proof fn lemma_query_after(a: Seq<char>, q: Seq<char>)
    requires
        forall|i: int| 0 <= i < a.len() ==> a[i] != '?',
        q.len() > 0 ==> q[0] == '?',
    ensures
        query_at(a + q) == a.len(),
{
    lemma_index_skips(a + q, 0, a.len() as int);
}

/// Looking for the question mark from `i` passes everything before `n`.
proof fn lemma_index_skips(s: Seq<char>, i: int, n: int)
    requires
        0 <= i <= n <= s.len(),
        forall|k: int| i <= k < n ==> s[k] != '?',
    ensures
        index_from(s, i, '?') == index_from(s, n, '?'),
    decreases n - i,
{
    if i < n {
        lemma_index_skips(s, i + 1, n);
    }
}

/// There is no question mark before the first one.
proof fn lemma_before_query(s: Seq<char>, i: int)
    requires
        0 <= i <= s.len(),
    ensures
        match index_from(s, i, '?') {
            Some(q) => i <= q < s.len() && s[q] == '?' && forall|k: int| i <= k < q ==> s[k] != '?',
            None => forall|k: int| i <= k < s.len() ==> s[k] != '?',
        },
    decreases s.len() - i,
{
    if i < s.len() && s[i] != '?' {
        lemma_before_query(s, i + 1);
    }
}

/// Dropping trailing slashes leaves the start of a text.
proof fn lemma_without_slashes(s: Seq<char>)
    ensures
        without_slashes(s).len() <= s.len(),
        without_slashes(s) == s.take(without_slashes(s).len() as int),
    decreases s.len(),
{
    if s.len() > 0 && s.last() == '/' {
        lemma_without_slashes(s.drop_last());
        assert(s.drop_last().take(without_slashes(s).len() as int) =~= s.take(
            without_slashes(s).len() as int,
        ));
    } else {
        assert(s.take(s.len() as int) =~= s);
    }
}

/// The suggested address always has the path that was missing, so a refusal for
/// the path names an address that is not refused for the path again.
pub proof fn law_suggestion_has_the_chat_path(url: Seq<char>)
    ensures
        is_chat(suggestion(url)),
{
    reveal_strlit("/chat");
    reveal_strlit("/completions");
    reveal_strlit("/chat/completions");
    reveal_strlit("/v1/chat/completions");
    lemma_before_query(url, 0);
    let q = query_at(url);
    let query = url.subrange(q, url.len() as int);
    lemma_without_slashes(url.take(q));
    let base = without_slashes(url.take(q));
    let tail = if ends(base, "/chat"@) {
        "/completions"@
    } else if !holds(after_scheme(base), "/"@) {
        "/v1/chat/completions"@
    } else {
        "/chat/completions"@
    };
    let a = base + tail;
    assert forall|i: int| 0 <= i < a.len() implies a[i] != '?' by {
        if i < base.len() {
            assert(base[i] == url.take(q)[i]);
        }
    }
    lemma_query_after(a, query);
    assert(suggestion(url) =~= a + query);
    assert((a + query).take(a.len() as int) =~= a);
    let n = "/chat/completions"@.len();
    let m = "/chat"@.len();
    let end = a.subrange(a.len() - n, a.len() as int);
    assert forall|k: int| 0 <= k < n implies #[trigger] end[k] == "/chat/completions"@[k] by {
        assert(end[k] == a[a.len() - n + k]);
        if ends(base, "/chat"@) {
            if k < m {
                assert(base.subrange(base.len() - m, base.len() as int)[k] == base[base.len() - m
                    + k]);
            } else {
                assert(a[a.len() - n + k] == tail[k - m]);
            }
        } else {
            assert(a[a.len() - n + k] == tail[tail.len() - n + k]);
        }
    }
    assert(end =~= "/chat/completions"@);
}

// ------------------------------------------------------------ credentials --

/// The environment variables that stand behind the flags.
pub struct Environment {
    /// `TYPESAFE_API_KEY`
    pub typesafe_key: Option<String>,
    /// `TYPESAFE_ENDPOINT`
    pub typesafe_endpoint: Option<String>,
    /// `WEBSCOUT_LLM_API_KEY`
    pub llm_key: Option<String>,
    /// `WEBSCOUT_LLM_ENDPOINT`
    pub llm_endpoint: Option<String>,
    /// `WEBSCOUT_LLM_MODEL`
    pub llm_model: Option<String>,
    /// `WEBSCOUT_PLANNER_MODEL`
    pub planner_model: Option<String>,
    /// `WEBSCOUT_PLANNER_ENDPOINT`
    pub planner_endpoint: Option<String>,
    /// `WEBSCOUT_PLANNER_KEY`
    pub planner_key: Option<String>,
    /// `JINA_API_KEY`
    pub jina_key: Option<String>,
}

/// What resolved credentials say.
#[verifier::ext_equal]
pub struct CredentialsView {
    pub typesafe_key: Seq<char>,
    pub typesafe_endpoint: Seq<char>,
    pub llm_key: Seq<char>,
    pub llm_endpoint: Seq<char>,
    pub llm_model: Seq<char>,
    pub planner_model: Seq<char>,
    pub planner_endpoint: Seq<char>,
    pub planner_key: Seq<char>,
    pub jina_key: Option<Seq<char>>,
}

impl View for Credentials {
    type V = CredentialsView;

    open spec fn view(&self) -> CredentialsView {
        CredentialsView {
            typesafe_key: self.typesafe_key@,
            typesafe_endpoint: self.typesafe_endpoint@,
            llm_key: self.llm_key@,
            llm_endpoint: self.llm_endpoint@,
            llm_model: self.llm_model@,
            planner_model: self.planner_model@,
            planner_endpoint: self.planner_endpoint@,
            planner_key: self.planner_key@,
            jina_key: opt_string(self.jina_key),
        }
    }
}

impl<'a> Default for Sources<'a> {
    /// Nothing was given.
    fn default() -> (r: Self)
        ensures
            r == (Sources {
                typesafe_key: None,
                typesafe_endpoint: None,
                llm_key: None,
                llm_endpoint: None,
                llm_model: None,
                planner_model: None,
                planner_endpoint: None,
                planner_key: None,
                jina_key: None,
            }),
    {
        Sources {
            typesafe_key: None,
            typesafe_endpoint: None,
            llm_key: None,
            llm_endpoint: None,
            llm_model: None,
            planner_model: None,
            planner_endpoint: None,
            planner_key: None,
            jina_key: None,
        }
    }
}

impl Default for Environment {
    /// No variable is set.
    fn default() -> (r: Self)
        ensures
            r == (Environment {
                typesafe_key: None,
                typesafe_endpoint: None,
                llm_key: None,
                llm_endpoint: None,
                llm_model: None,
                planner_model: None,
                planner_endpoint: None,
                planner_key: None,
                jina_key: None,
            }),
    {
        Environment {
            typesafe_key: None,
            typesafe_endpoint: None,
            llm_key: None,
            llm_endpoint: None,
            llm_model: None,
            planner_model: None,
            planner_endpoint: None,
            planner_key: None,
            jina_key: None,
        }
    }
}

pub const NO_TYPESAFE_KEY: &'static str = "no TypeSafe API key. Pass --typesafe-key or set TYPESAFE_API_KEY. Keys are never compiled in; get one at https://console.typesafe.ai/settings/keys";

pub const NO_LLM_KEY: &'static str = "no generative model API key. Pass --llm-key or set WEBSCOUT_LLM_API_KEY. The default endpoint is OpenRouter; --llm-endpoint and --llm-model point it elsewhere.";

/// A picked value, or what stands in for it.
pub open spec fn or_else(v: Option<Seq<char>>, other: Seq<char>) -> Seq<char> {
    match v {
        Some(s) => s,
        None => other,
    }
}

/// The credentials that flags and environment amount to, given both keys.
pub open spec fn collected(
    s: Sources,
    e: Environment,
    typesafe_key: Seq<char>,
    llm_key: Seq<char>,
) -> CredentialsView {
    let llm_model = or_else(picked(opt(s.llm_model), opt_string(e.llm_model)), DEFAULT_LLM_MODEL@);
    let llm_endpoint = or_else(
        picked(opt(s.llm_endpoint), opt_string(e.llm_endpoint)),
        DEFAULT_LLM_ENDPOINT@,
    );
    CredentialsView {
        typesafe_key,
        typesafe_endpoint: or_else(
            picked(opt(s.typesafe_endpoint), opt_string(e.typesafe_endpoint)),
            DEFAULT_TYPESAFE_ENDPOINT@,
        ),
        llm_key,
        llm_endpoint,
        llm_model,
        planner_model: or_else(
            picked(opt(s.planner_model), opt_string(e.planner_model)),
            llm_model,
        ),
        planner_endpoint: or_else(
            picked(opt(s.planner_endpoint), opt_string(e.planner_endpoint)),
            llm_endpoint,
        ),
        planner_key: or_else(picked(opt(s.planner_key), opt_string(e.planner_key)), llm_key),
        jina_key: picked(opt(s.jina_key), opt_string(e.jina_key)),
    }
}

/// Why collected credentials are refused, if they are: the model's endpoint, then
/// the planner's, then the verifier's.
pub open spec fn endpoint_refusal(c: CredentialsView) -> Option<Seq<char>> {
    match chat_refusal("--llm-endpoint"@, c.llm_endpoint) {
        Some(e) => Some(e),
        None => match chat_refusal("--planner-endpoint"@, c.planner_endpoint) {
            Some(e) => Some(e),
            None => if is_safe(c.typesafe_endpoint) {
                None
            } else {
                Some(unsafe_message("--typesafe-endpoint"@, c.typesafe_endpoint))
            },
        },
    }
}

/// What resolving gives: the credentials, or the first thing that is wrong.
pub open spec fn resolution(s: Sources, e: Environment) -> Result<CredentialsView, Seq<char>> {
    match picked(opt(s.typesafe_key), opt_string(e.typesafe_key)) {
        None => Err(NO_TYPESAFE_KEY@),
        Some(typesafe_key) => match picked(opt(s.llm_key), opt_string(e.llm_key)) {
            None => Err(NO_LLM_KEY@),
            Some(llm_key) => {
                let c = collected(s, e, typesafe_key, llm_key);
                match endpoint_refusal(c) {
                    Some(why) => Err(why),
                    None => Ok(c),
                }
            },
        },
    }
}

/// A flag over a variable, as a string.
fn pick_env(flag: Option<&str>, env: &Option<String>) -> (r: Option<String>)
    ensures
        opt_string(r) == picked(opt(flag), opt_string(*env)),
{
    match env {
        Some(v) => pick(flag, Some(v.as_str())),
        None => pick(flag, None),
    }
}

fn pick_or(flag: Option<&str>, env: &Option<String>, other: &str) -> (r: String)
    ensures
        r@ == or_else(picked(opt(flag), opt_string(*env)), other@),
{
    match pick_env(flag, env) {
        Some(v) => v,
        None => other.to_owned(),
    }
}

impl Credentials {
    /// Resolve every credential, preferring a flag over the environment. A missing
    /// key fails here, before any work starts, with a message that names both ways
    /// of supplying it.
    pub fn resolve(s: &Sources, env: &Environment) -> (r: Result<Credentials, String>)
        ensures
            match r {
                Ok(c) => resolution(*s, *env) == Ok::<CredentialsView, Seq<char>>(c@),
                Err(e) => resolution(*s, *env) == Err::<CredentialsView, Seq<char>>(e@),
            },
    {
        let typesafe_key = match pick_env(s.typesafe_key, &env.typesafe_key) {
            Some(k) => k,
            None => {
                return Err(NO_TYPESAFE_KEY.to_owned());
            },
        };
        let llm_key = match pick_env(s.llm_key, &env.llm_key) {
            Some(k) => k,
            None => {
                return Err(NO_LLM_KEY.to_owned());
            },
        };
        let llm_model = pick_or(s.llm_model, &env.llm_model, DEFAULT_LLM_MODEL);
        let planner_model = pick_or(s.planner_model, &env.planner_model, llm_model.as_str());
        let llm_endpoint = pick_or(s.llm_endpoint, &env.llm_endpoint, DEFAULT_LLM_ENDPOINT);
        let planner_key = pick_or(s.planner_key, &env.planner_key, llm_key.as_str());
        let planner_endpoint = pick_or(
            s.planner_endpoint,
            &env.planner_endpoint,
            llm_endpoint.as_str(),
        );
        let typesafe_endpoint = pick_or(
            s.typesafe_endpoint,
            &env.typesafe_endpoint,
            DEFAULT_TYPESAFE_ENDPOINT,
        );
        let jina_key = pick_env(s.jina_key, &env.jina_key);
        let c = Credentials {
            typesafe_key,
            typesafe_endpoint,
            llm_key,
            llm_endpoint,
            llm_model,
            planner_model,
            planner_endpoint,
            planner_key,
            jina_key,
        };
        assert(c@ == collected(*s, *env, c.typesafe_key@, c.llm_key@));
        match validate_chat_endpoint("--llm-endpoint", c.llm_endpoint.as_str()) {
            Ok(_) => {},
            Err(e) => {
                return Err(e);
            },
        }
        match validate_chat_endpoint("--planner-endpoint", c.planner_endpoint.as_str()) {
            Ok(_) => {},
            Err(e) => {
                return Err(e);
            },
        }
        match validate_endpoint("--typesafe-endpoint", c.typesafe_endpoint.as_str()) {
            Ok(_) => {},
            Err(e) => {
                return Err(e);
            },
        }
        Ok(c)
    }
}

/// A flag that says something beats the environment, which speaks only where no flag
/// does; a blank value is none.
pub proof fn law_flags_beat_the_environment(flag: Option<Seq<char>>, env: Option<Seq<char>>)
    ensures
        supplied(flag) is Some ==> picked(flag, env) == supplied(flag),
        supplied(flag) is None ==> picked(flag, env) == supplied(env),
        picked(flag, env) matches Some(v) ==> v.len() > 0,
{
}

/// Credentials that resolve are never sent in the clear: every endpoint is HTTPS or
/// plainly local.
pub proof fn law_credentials_travel_safely(s: Sources, e: Environment)
    ensures
        resolution(s, e) matches Ok(c) ==> is_safe(c.llm_endpoint) && is_safe(c.planner_endpoint)
            && is_safe(c.typesafe_endpoint),
{
}

/// Where nothing is said of the planner it is the writer: the same model, endpoint
/// and key.
pub proof fn law_the_planner_follows_the_writer(s: Sources, e: Environment)
    requires
        picked(opt(s.planner_model), opt_string(e.planner_model)) is None,
        picked(opt(s.planner_endpoint), opt_string(e.planner_endpoint)) is None,
        picked(opt(s.planner_key), opt_string(e.planner_key)) is None,
    ensures
        resolution(s, e) matches Ok(c) ==> c.planner_model == c.llm_model && c.planner_endpoint
            == c.llm_endpoint && c.planner_key == c.llm_key,
{
}

// ---------------------------------------------------------------- tunables --

/// Which search engines a run may use.
#[derive(Debug, Clone, Copy, PartialEq, Eq, Structural)]
pub enum SearchEngines {
    /// All that are available.
    Auto,
    /// DuckDuckGo only.
    Ddg,
    /// Jina only.
    Jina,
}


/// Everything that decides how deep the scout digs and where it draws its lines.
#[derive(Debug, Clone, Copy, PartialEq, Eq, Structural)]
pub struct Tunables {
    /// Search queries issued per round.
    pub queries_per_round: usize,
    /// Results requested from each search.
    pub results_per_query: usize,
    /// Pages fetched per query, after triage ranks them.
    pub read_per_query: usize,
    /// Hard ceiling on rounds.
    pub max_rounds: usize,
    /// Let the run decide when to stop instead of running to `max_rounds`.
    pub auto_rounds: bool,
    /// Consecutive rounds without anything new before giving up.
    pub max_barren_rounds: usize,
    /// Minimum relevance for a search hit to be worth fetching (0.35).
    pub keep_relevance: Real,
    /// Above this, a hit is discarded however relevant it looks (0.75).
    pub slop_ceiling: Real,
    /// At or above this, a chunk never reaches the generative model (0.55).
    pub injection_ceiling: Real,
    /// Minimum grounding for an extracted record to be kept (0.60).
    pub grounding_floor: Real,
    /// Minimum support for a passage to be cited in an answer (0.45).
    pub keep_support: Real,
    /// Minimum likelihood of items before a chunk is sent for extraction (0.12).
    pub has_items_floor: Real,
    /// Questions packed into one verification request.
    pub max_questions_per_request: usize,
    /// Chunk size in bytes.
    pub chunk_chars: usize,
    /// Chunks screened per page for an answer.
    pub max_chunks_per_page: usize,
    /// Chunks screened per page for a harvest.
    pub harvest_max_chunks_per_page: usize,
    /// Concurrent verification requests.
    pub concurrency: usize,
    /// Seconds a page may take to render.
    pub page_timeout: u64,
    /// Seconds a request may take.
    pub http_timeout: u64,
    /// Retries of a failed call.
    pub max_retries: usize,
    /// Minimum likelihood that a record satisfies the constraints (0.5).
    pub constraint_floor: Real,
    /// Minimum likelihood that a link reaches more entities (0.6).
    pub follow_floor: Real,
    /// Links followed from one listing page.
    pub max_follow_per_page: usize,
    /// Entities enriched per round.
    pub enrich_batch: usize,
    /// Pages fetched per enrichment search.
    pub enrich_read: usize,
    /// Minimum confidence for accepting a detected candidate (0.5).
    pub select_confidence: Real,
    /// Search results requested per enrichment query.
    pub enrich_results_per_query: usize,
    /// Run a research plan at the start of a harvest.
    pub research_plan: bool,
    /// Seconds one search lane has for a wave of queries.
    pub search_lane_timeout: u64,
    /// Whether search responses are cached on disk.
    pub search_cache: bool,
    /// Seconds a cached search response stays usable.
    pub search_cache_ttl: u64,
    /// Minimum likelihood that a query is worth searching (0.4).
    pub query_gate_floor: Real,
    /// Minimum likelihood that a page is a complete enumeration (0.8).
    pub enum_completeness_floor: Real,
    /// At or below this, silence on an own page is a negative (0.1).
    pub determination_no_ceiling: Real,
    /// At or below this, an entity is absent from an enumeration (0.2).
    pub enum_absence_ceiling: Real,
    /// Records from enumeration pages before their absences count.
    pub enum_min_yield: usize,
    /// Enumeration pages kept for corroboration.
    pub enum_max_pages: usize,
    /// Maximum number of re-aim rounds per run.
    pub max_reaims: usize,
    /// Minimum currency for a passage on a time-sensitive answer (0.25).
    pub currency_floor: Real,
    /// Minimum support for a claim to be left unmarked (0.5).
    pub claim_floor: Real,
}

impl Tunables {
    /// The standard settings.
    pub open spec fn standard() -> Tunables {
        Tunables {
            queries_per_round: 5,
            results_per_query: 8,
            read_per_query: 3,
            max_rounds: 40,
            auto_rounds: true,
            max_barren_rounds: 3,
            keep_relevance: Real { bits: 0x3FD6_6666_6666_6666 },
            slop_ceiling: Real { bits: 0x3FE8_0000_0000_0000 },
            injection_ceiling: Real { bits: 0x3FE1_9999_9999_999A },
            grounding_floor: Real { bits: 0x3FE3_3333_3333_3333 },
            keep_support: Real { bits: 0x3FDC_CCCC_CCCC_CCCD },
            has_items_floor: Real { bits: 0x3FBE_B851_EB85_1EB8 },
            max_questions_per_request: 192,
            chunk_chars: 4000,
            max_chunks_per_page: 7,
            harvest_max_chunks_per_page: 40,
            concurrency: 8,
            page_timeout: 45,
            http_timeout: 180,
            max_retries: 4,
            constraint_floor: Real { bits: 0x3FE0_0000_0000_0000 },
            follow_floor: Real { bits: 0x3FE3_3333_3333_3333 },
            max_follow_per_page: 12,
            enrich_batch: 25,
            enrich_read: 2,
            select_confidence: Real { bits: 0x3FE0_0000_0000_0000 },
            enrich_results_per_query: 5,
            research_plan: true,
            search_lane_timeout: 20,
            search_cache: true,
            search_cache_ttl: 21_600,
            query_gate_floor: Real { bits: 0x3FD9_9999_9999_999A },
            enum_completeness_floor: Real { bits: 0x3FE9_9999_9999_999A },
            determination_no_ceiling: Real { bits: 0x3FB9_9999_9999_999A },
            enum_absence_ceiling: Real { bits: 0x3FC9_9999_9999_999A },
            enum_min_yield: 3,
            enum_max_pages: 3,
            max_reaims: 2,
            currency_floor: Real { bits: 0x3FD0_0000_0000_0000 },
            claim_floor: Real { bits: 0x3FE0_0000_0000_0000 },
        }
    }

    /// The settings of a run that should leave no stone unturned.
    pub open spec fn wide() -> Tunables {
        Tunables {
            queries_per_round: 10,
            results_per_query: 20,
            read_per_query: 8,
            max_rounds: 100,
            auto_rounds: true,
            max_barren_rounds: 5,
            max_chunks_per_page: 20,
            harvest_max_chunks_per_page: 80,
            enrich_batch: 50,
            ..Tunables::standard()
        }
    }

    /// The settings of a quick look.
    pub open spec fn narrow() -> Tunables {
        Tunables {
            queries_per_round: 3,
            results_per_query: 6,
            read_per_query: 2,
            max_rounds: 3,
            auto_rounds: true,
            max_barren_rounds: 1,
            max_chunks_per_page: 6,
            harvest_max_chunks_per_page: 16,
            enrich_batch: 12,
            ..Tunables::standard()
        }
    }

    /// Widen everything for a run that should leave no stone unturned.
    pub fn thorough() -> (r: Self)
        ensures
            r == Tunables::wide(),
    {
        Tunables {
            queries_per_round: 10,
            results_per_query: 20,
            read_per_query: 8,
            max_rounds: 100,
            auto_rounds: true,
            max_barren_rounds: 5,
            max_chunks_per_page: 20,
            harvest_max_chunks_per_page: 80,
            enrich_batch: 50,
            ..Tunables::default()
        }
    }

    /// Narrow everything for a quick look.
    pub fn quick() -> (r: Self)
        ensures
            r == Tunables::narrow(),
    {
        Tunables {
            queries_per_round: 3,
            results_per_query: 6,
            read_per_query: 2,
            max_rounds: 3,
            auto_rounds: true,
            max_barren_rounds: 1,
            max_chunks_per_page: 6,
            harvest_max_chunks_per_page: 16,
            enrich_batch: 12,
            ..Tunables::default()
        }
    }

    /// Chunk cap for this mission: a harvest and an answer want opposite things
    /// from a long page.
    pub fn chunk_cap(&self, harvest: bool) -> (r: usize)
        ensures
            r == if harvest { self.harvest_max_chunks_per_page } else { self.max_chunks_per_page },
    {
        if harvest {
            self.harvest_max_chunks_per_page
        } else {
            self.max_chunks_per_page
        }
    }
}

impl Default for Tunables {
    fn default() -> (r: Self)
        ensures
            r == Tunables::standard(),
    {
        Tunables {
            queries_per_round: 5,
            results_per_query: 8,
            read_per_query: 3,
            max_rounds: 40,
            auto_rounds: true,
            max_barren_rounds: 3,
            keep_relevance: Real { bits: 0x3FD6_6666_6666_6666 },
            slop_ceiling: Real { bits: 0x3FE8_0000_0000_0000 },
            injection_ceiling: Real { bits: 0x3FE1_9999_9999_999A },
            grounding_floor: Real { bits: 0x3FE3_3333_3333_3333 },
            keep_support: Real { bits: 0x3FDC_CCCC_CCCC_CCCD },
            has_items_floor: Real { bits: 0x3FBE_B851_EB85_1EB8 },
            max_questions_per_request: 192,
            chunk_chars: 4000,
            max_chunks_per_page: 7,
            harvest_max_chunks_per_page: 40,
            concurrency: 8,
            page_timeout: 45,
            http_timeout: 180,
            max_retries: 4,
            constraint_floor: Real { bits: 0x3FE0_0000_0000_0000 },
            follow_floor: Real { bits: 0x3FE3_3333_3333_3333 },
            max_follow_per_page: 12,
            enrich_batch: 25,
            enrich_read: 2,
            select_confidence: Real { bits: 0x3FE0_0000_0000_0000 },
            enrich_results_per_query: 5,
            research_plan: true,
            search_lane_timeout: 20,
            search_cache: true,
            search_cache_ttl: 21_600,
            query_gate_floor: Real { bits: 0x3FD9_9999_9999_999A },
            enum_completeness_floor: Real { bits: 0x3FE9_9999_9999_999A },
            determination_no_ceiling: Real { bits: 0x3FB9_9999_9999_999A },
            enum_absence_ceiling: Real { bits: 0x3FC9_9999_9999_999A },
            enum_min_yield: 3,
            enum_max_pages: 3,
            max_reaims: 2,
            currency_floor: Real { bits: 0x3FD0_0000_0000_0000 },
            claim_floor: Real { bits: 0x3FE0_0000_0000_0000 },
        }
    }
}

/// How many pages to render at once, by default: the machine's core count, 8
/// where it is unknown, and between 4 and 16 in any case.
pub fn default_fetch_concurrency(cores: Option<usize>) -> (r: usize)
    ensures
        r == {
            let n = match cores {
                Some(n) => n,
                None => 8,
            };
            if n < 4 {
                4
            } else if n > 16 {
                16
            } else {
                n
            }
        },
{
    let n: usize = match cores {
        Some(n) => n,
        None => 8,
    };
    if n < 4 {
        4
    } else if n > 16 {
        16
    } else {
        n
    }
}

/// A quick look does less than a standard run and a thorough one more, in every setting that
/// bounds the work; none of the presets asks for less care.
pub proof fn law_presets_are_ordered()
    ensures
        Tunables::narrow().max_rounds < Tunables::standard().max_rounds,
        Tunables::standard().max_rounds < Tunables::wide().max_rounds,
        Tunables::narrow().max_barren_rounds < Tunables::standard().max_barren_rounds,
        Tunables::standard().max_barren_rounds < Tunables::wide().max_barren_rounds,
        Tunables::narrow().queries_per_round < Tunables::standard().queries_per_round,
        Tunables::standard().queries_per_round < Tunables::wide().queries_per_round,
        Tunables::narrow().results_per_query < Tunables::standard().results_per_query,
        Tunables::standard().results_per_query < Tunables::wide().results_per_query,
        Tunables::narrow().read_per_query < Tunables::standard().read_per_query,
        Tunables::standard().read_per_query < Tunables::wide().read_per_query,
        Tunables::narrow().max_chunks_per_page < Tunables::standard().max_chunks_per_page,
        Tunables::standard().max_chunks_per_page < Tunables::wide().max_chunks_per_page,
        Tunables::narrow().harvest_max_chunks_per_page
            < Tunables::standard().harvest_max_chunks_per_page,
        Tunables::standard().harvest_max_chunks_per_page
            < Tunables::wide().harvest_max_chunks_per_page,
        Tunables::narrow().enrich_batch < Tunables::standard().enrich_batch,
        Tunables::standard().enrich_batch < Tunables::wide().enrich_batch,
        forall|t: Tunables|
            #![trigger t.grounding_floor]
            t == Tunables::narrow() || t == Tunables::wide() ==> t.grounding_floor
                == Tunables::standard().grounding_floor && t.injection_ceiling
                == Tunables::standard().injection_ceiling && t.claim_floor
                == Tunables::standard().claim_floor && t.constraint_floor
                == Tunables::standard().constraint_floor && t.auto_rounds,
{
}

} // verus!
