//! Recall-tuned value extraction for contact fields.
use vstd::prelude::*;
use vstd::string::*;
use crate::scan::{
    contains, contains_chars, ends, holds, join, lemma_replace_absent, lemma_replace_parts,
    lemma_replace_run, lemma_rfind, lemma_squeeze_chars, lemma_squeeze_holds, lemma_trim_end,
    lemma_trim_start, match_at, replace, replace_all, replace_from, rfind, rfind_from, squeeze,
    squeeze_spaces, starts, starts_with, trim, trim_chars, trim_start, word_end, words, words_from,
};
use crate::spelling::{
    closes, is_address, is_sign, lemma_plain_address, lemma_unbracketed_address, opens, spells,
    unbracket, unbracketed,
};
use crate::text::{
    all_ascii, from_chars, from_range, has_text, is_digit, is_space, lower, lower_all, lowercase,
    push_range, push_str, str_eq, sub_chars, to_ascii_lower, to_chars, to_lower, views,
};

verus! {

// ---------------------------------------------------------------- patterns --

/// An address; obfuscation is undone before this runs.
pub const EMAIL_PATTERN: &'static str = "[a-zA-Z0-9._%+\\-]+@[a-zA-Z0-9.\\-]+\\.[a-zA-Z]{2,}";

/// An address of a page, with its scheme or in the bare `www.` form. The slashes behind
/// the scheme may be escaped, as JSON escapes them.
pub const URL_PATTERN: &'static str =
    "(?:https?:(?:\\\\?/){2}|www\\.)[^\\s<>\"'(){}\\[\\],;]{3,}";

/// Digits parted by spaces, dots or dashes, with an optional leading plus sign.
pub const PHONE_PATTERN: &'static str = "\\+?[0-9][0-9 .\\-]{5,}[0-9]";

/// A local part, the word `at`, and a dotted domain.
pub const AT_PATTERN: &'static str = "([a-z0-9._%+\\-]+) at ((?:[a-z0-9\\-]+ ?\\. ?)+[a-z]{2,})";

/// What `regex::Regex::find_iter` finds of a pattern in a text: the matches, in
/// order.
pub uninterp spec fn regex_matches(pattern: Seq<char>, text: Seq<char>) -> Seq<Seq<char>>;

/// `regex::Regex::new` and `find_iter`: the successive non-overlapping matches of
/// a pattern in a text, each as its own text. Claimed: pattern and text alone
/// decide them. Only the three patterns above are asked for; they compile, so
/// the `unwrap` holds. The matching rules of the regex syntax are not restated.
#[verifier::external_body]
pub(crate) fn pattern_matches(pattern: &str, text: &str) -> (r: Vec<String>)
    requires
        pattern@ == EMAIL_PATTERN@ || pattern@ == URL_PATTERN@ || pattern@ == PHONE_PATTERN@,
    ensures
        views(r@) == regex_matches(pattern@, text@),
{
    let re = regex::Regex::new(pattern).unwrap();
    re.find_iter(text).map(|m| m.as_str().to_string()).collect()
}

/// Where a pattern with two groups matches, in characters: the start of the
/// match, the end of the first group, the start of the second, the end of the
/// match.
pub type Span = (usize, usize, usize, usize);

/// What `regex::Regex::captures_iter` finds of a pattern in a text.
pub uninterp spec fn regex_spans(pattern: Seq<char>, text: Seq<char>) -> Seq<(
    usize,
    usize,
    usize,
    usize,
)>;

/// Spans that follow one another inside a text of length `len`, from `pos` on.
pub open spec fn spans_in_order(spans: Seq<Span>, pos: int, len: int) -> bool
    decreases spans.len(),
{
    if spans.len() == 0 {
        pos <= len
    } else {
        let s = spans[0];
        pos <= s.0 <= s.1 <= s.2 <= s.3 <= len && spans_in_order(spans.drop_first(), s.3 as int, len)
    }
}

/// The word `at` between two spaces parts the groups of a span, and no `@` is in it.
pub open spec fn spelled_at(t: Seq<char>, s: Span) -> bool {
    &&& s.1 + 4 == s.2
    &&& t.subrange(s.1 as int, s.2 as int) == " at "@
    &&& forall|i: int| s.0 <= i < s.3 ==> #[trigger] t[i] != '@'
}

/// `regex::Regex::new` and `captures_iter`: the successive non-overlapping
/// matches of the pattern in a text, each by the places (counted in characters)
/// of its start, of the end of group one, of the start of group two and of its
/// end. Claimed: the text alone decides them, they follow one another inside it,
/// and each is as the pattern writes it out: the four characters ` at ` between
/// the groups, and no `@`, which neither group's classes have. In this pattern both
/// groups take part in every match and group one comes first, so the `unwrap`s hold.
#[verifier::external_body]
pub(crate) fn capture_spans(pattern: &str, text: &str) -> (r: Vec<Span>)
    requires
        pattern@ == AT_PATTERN@,
    ensures
        r@ == regex_spans(pattern@, text@),
        spans_in_order(r@, 0, text@.len() as int),
        forall|k: int| 0 <= k < r@.len() ==> spelled_at(text@, #[trigger] r@[k]),
{
    let re = regex::Regex::new(pattern).unwrap();
    let at = |i: usize| text[..i].chars().count();
    re.captures_iter(text).map(|c| {
        let (m, a, b) = (c.get(0).unwrap(), c.get(1).unwrap(), c.get(2).unwrap());
        (at(m.start()), at(a.end()), at(b.start()), at(m.end()))
    }).collect()
}

// ------------------------------------------------------------- obfuscation --

/// One spelled-out `at`: a web address after it is prose and stays; otherwise
/// the two parts become an address.
pub open spec fn joined_at(t: Seq<char>, s: Span) -> Seq<char> {
    let domain = t.subrange(s.2 as int, s.3 as int);
    if starts(domain, "www."@) || starts(domain, "http"@) {
        t.subrange(s.0 as int, s.3 as int)
    } else {
        t.subrange(s.0 as int, s.1 as int) + seq!['@'] + replace(domain, " "@, ""@)
    }
}

/// The text from `pos` on with each of the spans from the `k`-th on rewritten.
pub open spec fn rejoined(t: Seq<char>, spans: Seq<Span>, k: int, pos: int) -> Seq<char>
    decreases spans.len() - k,
{
    if k < 0 || k >= spans.len() {
        t.subrange(pos, t.len() as int)
    } else {
        t.subrange(pos, spans[k].0 as int) + joined_at(t, spans[k]) + rejoined(
            t,
            spans,
            k + 1,
            spans[k].3 as int,
        )
    }
}

/// A text with common obfuscations of addresses undone.
pub open spec fn plain_addresses(s: Seq<char>) -> Seq<char> {
    let t = unbracketed(lowercase(s));
    rejoined(t, regex_spans(AT_PATTERN@, t), 0, 0)
}

/// A text with the given spelled-out `at`s rewritten.
pub fn rejoin_at(t: &[char], spans: &Vec<Span>) -> (r: Vec<char>)
    requires
        spans_in_order(spans@, 0, t@.len() as int),
    ensures
        r@ == rejoined(t@, spans@, 0, 0),
{
    let mut out: Vec<char> = Vec::new();
    let mut pos: usize = 0;
    let mut k: usize = 0;
    assert(spans@.subrange(0, spans@.len() as int) =~= spans@);
    assert(out@ + rejoined(t@, spans@, 0, 0) =~= rejoined(t@, spans@, 0, 0));
    while k < spans.len()
        invariant
            k <= spans@.len(),
            pos <= t@.len(),
            spans_in_order(
                spans@.subrange(k as int, spans@.len() as int),
                pos as int,
                t@.len() as int,
            ),
            out@ + rejoined(t@, spans@, k as int, pos as int) == rejoined(t@, spans@, 0, 0),
        decreases spans@.len() - k,
    {
        let ghost rest = spans@.subrange(k as int, spans@.len() as int);
        let s = spans[k];
        proof {
            assert(rest[0] == s);
            assert(rest.drop_first() =~= spans@.subrange(k + 1, spans@.len() as int));
            lemma_span_bounds(rest, pos as int, t@.len() as int);
        }
        let ghost before = out@;
        push_range(&mut out, t, pos, s.0);
        let domain = sub_chars(t, s.2, s.3);
        if starts_with(&domain, "www.") || starts_with(&domain, "http") {
            push_range(&mut out, t, s.0, s.3);
        } else {
            push_range(&mut out, t, s.0, s.1);
            out.push('@');
            let tight = replace_all(&domain, " ", "");
            push_range(&mut out, &tight, 0, tight.len());
            assert(tight@.subrange(0, tight@.len() as int) =~= tight@);
        }
        proof {
            assert(out@ =~= before + t@.subrange(pos as int, s.0 as int) + joined_at(t@, s));
            assert(before + (t@.subrange(pos as int, s.0 as int) + joined_at(t@, s) + rejoined(
                t@,
                spans@,
                k + 1,
                s.3 as int,
            )) =~= out@ + rejoined(t@, spans@, k + 1, s.3 as int));
        }
        pos = s.3;
        k += 1;
    }
    let ghost before = out@;
    push_range(&mut out, t, pos, t.len());
    assert(out@ =~= before + rejoined(t@, spans@, k as int, pos as int));
    out
}

proof fn lemma_span_bounds(spans: Seq<Span>, pos: int, len: int)
    requires
        spans.len() > 0,
        spans_in_order(spans, pos, len),
    ensures
        pos <= spans[0].0 <= spans[0].1 <= spans[0].2 <= spans[0].3 <= len,
        spans_in_order(spans.drop_first(), spans[0].3 as int, len),
{
}

/// A piece of a text that is an address already: an `@` inside, and no space.
pub open spec fn stands(t: Seq<char>, w: Seq<char>) -> bool {
    holds(t, w) && w.contains('@') && !w.contains(' ')
}

/// The rest of an address that holds an `@` from `pos` on stays in front.
proof fn lemma_rejoined_start(t: Seq<char>, spans: Seq<Span>, k: int, pos: int, at: int, end: int)
    requires
        0 <= k <= spans.len(),
        spans_in_order(spans.skip(k), pos, t.len() as int),
        forall|j: int| 0 <= j < spans.len() ==> spelled_at(t, #[trigger] spans[j]),
        0 <= pos <= at < end <= t.len(),
        t[at] == '@',
        forall|i: int| pos <= i < end ==> #[trigger] t[i] != ' ',
    ensures
        starts(rejoined(t, spans, k, pos), t.subrange(pos, end)),
{
    let r = rejoined(t, spans, k, pos);
    let w = t.subrange(pos, end);
    if k >= spans.len() {
        assert(r.subrange(0, w.len() as int) =~= w);
    } else {
        let s = spans[k];
        assert(spans.skip(k)[0] == s);
        lemma_span_bounds(spans.skip(k), pos, t.len() as int);
        lemma_span_spaces(t, s);
        assert(s.0 > at) by {
            if s.3 <= at {
                assert(t[s.1 as int] == ' ');
            }
        }
        let head = t.subrange(pos, s.0 as int) + joined_at(t, s);
        if s.0 < end {
            assert(t[s.1 as int] == ' ');
            assert(s.1 >= end);
        }
        assert(r.subrange(0, w.len() as int) =~= w) by {
            assert forall|i: int| 0 <= i < w.len() implies r[i] == w[i] by {
                if pos + i >= s.0 {
                    assert(joined_at(t, s)[pos + i - s.0] == t[pos + i]);
                }
                assert(head[i] == t[pos + i]);
                assert(r[i] == head[i]);
            }
        }
    }
}

proof fn lemma_span_spaces(t: Seq<char>, s: Span)
    requires
        s.2 <= t.len(),
        spelled_at(t, s),
    ensures
        t[s.1 as int] == ' ',
        t[s.2 - 1] == ' ',
{
    reveal_strlit(" at ");
    let m = t.subrange(s.1 as int, s.2 as int);
    assert(m[0] == t[s.1 as int]);
    assert(m[3] == t[s.2 - 1]);
}

/// An address that is whole stays whole.
proof fn lemma_rejoined_holds(
    t: Seq<char>,
    spans: Seq<Span>,
    k: int,
    pos: int,
    lo: int,
    at: int,
    end: int,
)
    requires
        0 <= k <= spans.len(),
        spans_in_order(spans.skip(k), pos, t.len() as int),
        forall|j: int| 0 <= j < spans.len() ==> spelled_at(t, #[trigger] spans[j]),
        0 <= pos <= lo <= at < end <= t.len(),
        t[at] == '@',
        forall|i: int| lo <= i < end ==> #[trigger] t[i] != ' ',
    ensures
        holds(rejoined(t, spans, k, pos), t.subrange(lo, end)),
    decreases spans.len() - k,
{
    let r = rejoined(t, spans, k, pos);
    let w = t.subrange(lo, end);
    if k >= spans.len() {
        assert(r.subrange(lo - pos, end - pos) =~= w);
        assert(match_at(r, lo - pos, w));
    } else {
        let s = spans[k];
        assert(spans.skip(k)[0] == s);
        assert(spans.skip(k).drop_first() =~= spans.skip(k + 1));
        lemma_span_bounds(spans.skip(k), pos, t.len() as int);
        lemma_span_spaces(t, s);
        let joined = joined_at(t, s);
        let before = t.subrange(pos, s.0 as int);
        let head = before + joined;
        let rest = rejoined(t, spans, k + 1, s.3 as int);
        if s.3 <= lo {
            lemma_rejoined_holds(t, spans, k + 1, s.3 as int, lo, at, end);
            let i = choose|i: int| match_at(rest, i, w);
            assert(r.subrange(head.len() + i, head.len() + i + w.len()) =~= rest.subrange(
                i,
                i + w.len(),
            ));
            assert(match_at(r, head.len() + i, w));
        } else if s.3 <= at {
            assert(s.2 <= lo) by {
                if s.2 > lo {
                    assert(t[s.2 - 1] == ' ');
                }
            }
            lemma_rejoined_start(t, spans, k + 1, s.3 as int, at, end);
            let n = s.3 - lo;
            let tail = t.subrange(lo, s.3 as int);
            lemma_joined_end(t, s, lo);
            let m = end - s.3;
            let i = head.len() - n;
            assert(rest.subrange(0, m) == t.subrange(s.3 as int, end));
            assert(joined.subrange(joined.len() - n, joined.len() as int) == tail);
            assert(r.subrange(i, i + w.len()) =~= w) by {
                assert forall|j: int| 0 <= j < w.len() implies r[i + j] == w[j] by {
                    if j < n {
                        assert(joined.subrange(joined.len() - n, joined.len() as int)[j]
                            == joined[joined.len() - n + j]);
                        assert(tail[j] == t[lo + j]);
                    } else {
                        assert(rest.subrange(0, m)[j - n] == rest[j - n]);
                    }
                }
            }
            assert(match_at(r, i, w));
        } else {
            assert(s.0 > at);
            if s.0 < end {
                assert(s.1 >= end);
            }
            let i = lo - pos;
            assert(r.subrange(i, i + w.len()) =~= w) by {
                assert forall|j: int| 0 <= j < w.len() implies r[i + j] == w[j] by {
                    if lo + j >= s.0 {
                        assert(joined[lo + j - s.0] == t[lo + j]);
                    }
                    assert(head[i + j] == t[lo + j]);
                    assert(r[i + j] == head[i + j]);
                }
            }
            assert(match_at(r, i, w));
        }
    }
}

/// What of a domain holds no spaces is copied as it is.
proof fn lemma_joined_end(t: Seq<char>, s: Span, lo: int)
    requires
        s.0 <= s.1 <= s.2 <= lo <= s.3 <= t.len(),
        forall|i: int| lo <= i < s.3 ==> #[trigger] t[i] != ' ',
    ensures
        ends(joined_at(t, s), t.subrange(lo, s.3 as int)),
{
    let tail = t.subrange(lo, s.3 as int);
    let domain = t.subrange(s.2 as int, s.3 as int);
    let j = joined_at(t, s);
    if starts(domain, "www."@) || starts(domain, "http"@) {
        assert(j.subrange(j.len() - tail.len(), j.len() as int) =~= tail);
    } else {
        reveal_strlit(" ");
        let m = lo - s.2;
        let n = domain.len() as int;
        assert forall|i: int| m <= i < n implies !#[trigger] match_at(domain, i, " "@) by {
            if match_at(domain, i, " "@) {
                assert(domain.subrange(i, i + 1)[0] == t[s.2 + i]);
            }
        }
        assert forall|i: int| 0 <= i < m && #[trigger] match_at(domain, i, " "@) implies i
            + " "@.len() <= m by {}
        let head = lemma_replace_parts(domain, 0, m, " "@, ""@);
        lemma_replace_run(domain, m, n, " "@, ""@);
        assert(replace_from(domain, n, " "@, ""@) =~= Seq::<char>::empty());
        assert(domain.subrange(m, n) =~= tail);
        let tight = replace(domain, " "@, ""@);
        assert(tight =~= head + tail);
        assert(j.subrange(j.len() - tail.len(), j.len() as int) =~= tail);
    }
}

/// Replace common email-obfuscation patterns with their plain characters. What is an
/// address already stays, and so does a text without spaces behind its spellings.
pub fn normalize_obfuscation(s: &str) -> (r: String)
    ensures
        r@ == plain_addresses(s@),
        forall|w: Seq<char>| #[trigger]
            stands(unbracketed(lowercase(s@)), w) ==> holds(r@, w),
        !unbracketed(lowercase(s@)).contains(' ') ==> r@ == unbracketed(lowercase(s@)),
{
    let low = to_lower(s);
    let v = to_chars(low.as_str());
    let t = unbracket(&v);
    let text = from_chars(&t);
    let spans = capture_spans(AT_PATTERN, text.as_str());
    let out = rejoin_at(&t, &spans);
    proof {
        assert(spans@.skip(0) =~= spans@);
        assert forall|w: Seq<char>| #[trigger] stands(t@, w) implies holds(out@, w) by {
            let lo = choose|lo: int| match_at(t@, lo, w);
            let j = choose|j: int| 0 <= j < w.len() && w[j] == '@';
            let end = lo + w.len();
            assert(t@.subrange(lo, end)[j] == t@[lo + j]);
            assert forall|i: int| lo <= i < end implies #[trigger] t@[i] != ' ' by {
                assert(t@.subrange(lo, end)[i - lo] == t@[i]);
                assert(w.contains(w[i - lo]));
            }
            lemma_rejoined_holds(t@, spans@, 0, 0, lo, lo + j, end);
        }
        if !t@.contains(' ') {
            if spans@.len() > 0 {
                lemma_span_bounds(spans@, 0, t@.len() as int);
                lemma_span_spaces(t@, spans@[0]);
                assert(t@.contains(t@[spans@[0].1 as int]));
            }
            assert(out@ =~= t@);
        }
    }
    from_chars(&out)
}

// -------------------------------------------------------------------- kinds --

/// Broad category of a structured contact field.
#[derive(Debug, Clone, Copy, PartialEq, Eq, Structural)]
pub enum Kind {
    Email,
    Url,
    Phone,
}

/// The category that a field's name suggests. A mailing address is postal.
pub open spec fn kind_of(field: Seq<char>) -> Option<Kind> {
    let f = lower_all(field);
    if holds(f, "email"@) || holds(f, "e-mail"@) || holds(f, "correo"@) || (holds(f, "mail"@)
        && !holds(f, "mailing"@)) {
        Some(Kind::Email)
    } else if holds(f, "website"@) || holds(f, "sitio"@) || holds(f, "site"@) || holds(f, "web"@)
        || holds(f, "url"@) {
        Some(Kind::Url)
    } else if holds(f, "phone"@) || holds(f, "telephone"@) || holds(f, "teléfono"@) || holds(
        f,
        "telefono"@,
    ) || holds(f, "telefon"@) || holds(f, "tel"@) {
        Some(Kind::Phone)
    } else {
        None
    }
}

/// Map a field name to a broad kind by the words it holds, in any of several
/// languages. `None` when no pattern is recognised.
pub fn kind_for_field(field: &str) -> (r: Option<Kind>)
    ensures
        r == kind_of(field@),
{
    let v = to_chars(field);
    let f = to_ascii_lower(&v);
    if contains(&f, "email") || contains(&f, "e-mail") || contains(&f, "correo") || (contains(
        &f,
        "mail",
    ) && !contains(&f, "mailing")) {
        return Some(Kind::Email);
    }
    if contains(&f, "website") || contains(&f, "sitio") || contains(&f, "site") || contains(
        &f,
        "web",
    ) || contains(&f, "url") {
        return Some(Kind::Url);
    }
    if contains(&f, "phone") || contains(&f, "telephone") || contains(&f, "teléfono") || contains(
        &f,
        "telefono",
    ) || contains(&f, "telefon") || contains(&f, "tel") {
        return Some(Kind::Phone);
    }
    None
}

// ------------------------------------------------------------------ cleaning --

/// Punctuation that belongs to surrounding prose, not to the value.
pub open spec fn is_trailing(c: char) -> bool {
    c == '.' || c == ',' || c == ':' || c == ';' || c == '!' || c == '?' || c == ')' || c == ']'
}

pub open spec fn without_trailing(s: Seq<char>) -> Seq<char>
    decreases s.len(),
{
    if s.len() > 0 && is_trailing(s.last()) {
        without_trailing(s.drop_last())
    } else {
        s
    }
}

/// Trim trailing punctuation that belongs to surrounding prose.
pub fn trim_punct(v: &[char]) -> (r: Vec<char>)
    ensures
        r@ == without_trailing(v@),
{
    let mut end: usize = v.len();
    assert(v@.take(end as int) =~= v@);
    while end > 0 && (v[end - 1] == '.' || v[end - 1] == ',' || v[end - 1] == ':' || v[end - 1]
        == ';' || v[end - 1] == '!' || v[end - 1] == '?' || v[end - 1] == ')' || v[end - 1] == ']')
        invariant
            end <= v@.len(),
            without_trailing(v@.take(end as int)) == without_trailing(v@),
        decreases end,
    {
        assert(v@.take(end as int).drop_last() =~= v@.take(end - 1));
        end -= 1;
    }
    let r = sub_chars(v, 0, end);
    assert(r@ =~= v@.take(end as int));
    r
}

/// An address that is not a template's or a hiding script's: it has an `@`, and
/// around the last one a local part that is not exactly `email` and does not hold
/// `protected`, and no placeholder domain.
pub open spec fn plausible(s: Seq<char>) -> bool {
    match rfind_from(s, s.len() as int, "@"@) {
        None => false,
        Some(k) => {
            let local = lowercase(s.take(k));
            let domain = lowercase(s.subrange(k + 1, s.len() as int));
            &&& local != "email"@
            &&& !holds(local, "protected"@)
            &&& domain != "example.com"@
            &&& domain != "example.org"@
            &&& domain != "domain.com"@
            &&& domain != "email.com"@
            &&& domain != "test.com"@
        },
    }
}

/// Reject junk candidates that the pattern is happy to accept.
pub fn is_plausible_email(candidate: &str) -> (r: bool)
    ensures
        r == plausible(candidate@),
{
    let v = to_chars(candidate);
    let at: usize = match rfind(&v, "@") {
        None => {
            return false;
        },
        Some(k) => k,
    };
    proof {
        reveal_strlit("@");
    }
    let head = from_range(&v, 0, at);
    assert(v@.subrange(0, at as int) =~= v@.take(at as int));
    let local = to_lower(head.as_str());
    if str_eq(local.as_str(), "email") {
        return false;
    }
    let lv = to_chars(local.as_str());
    if contains(&lv, "protected") {
        return false;
    }
    let tail = from_range(&v, at + 1, v.len());
    let domain = to_lower(tail.as_str());
    let d = domain.as_str();
    !(str_eq(d, "example.com") || str_eq(d, "example.org") || str_eq(d, "domain.com") || str_eq(
        d,
        "email.com",
    ) || str_eq(d, "test.com"))
}

/// The value that one match gives, if any.
pub open spec fn value_of_match(kind: Kind, m: Seq<char>) -> Option<Seq<char>> {
    match kind {
        Kind::Email => {
            let s = without_trailing(m);
            if s.len() > 0 && plausible(s) {
                Some(s)
            } else {
                None
            }
        },
        Kind::Url => {
            let s = without_trailing(m);
            let full = if starts(s, "www."@) {
                "https://"@ + s
            } else {
                s
            };
            let plain = replace(full, "\\/"@, "/"@);
            if plain.len() > 0 {
                Some(plain)
            } else {
                None
            }
        },
        Kind::Phone => {
            let s = without_trailing(trim(m));
            if digits_in(trim(m)) >= 7 && s.len() > 0 {
                Some(s)
            } else {
                None
            }
        },
    }
}

/// How many digits a text holds.
pub open spec fn digits_in(s: Seq<char>) -> nat
    decreases s.len(),
{
    if s.len() == 0 {
        0
    } else {
        digits_in(s.drop_last()) + (if is_digit(s.last()) {
            1nat
        } else {
            0
        })
    }
}

/// The values of the first `n` matches, each once, in order of first occurrence.
pub open spec fn values_of(kind: Kind, matches: Seq<Seq<char>>, n: nat) -> Seq<Seq<char>>
    decreases n,
{
    if n == 0 {
        Seq::empty()
    } else {
        let out = values_of(kind, matches, (n - 1) as nat);
        match value_of_match(kind, matches[n - 1]) {
            Some(s) => if out.contains(s) {
                out
            } else {
                out.push(s)
            },
            None => out,
        }
    }
}

/// All values of a kind in a text. Addresses of people are looked for once written-out
/// signs are undone.
pub open spec fn found(kind: Kind, text: Seq<char>) -> Seq<Seq<char>> {
    let matches = match kind {
        Kind::Email => regex_matches(EMAIL_PATTERN@, plain_addresses(text)),
        Kind::Url => regex_matches(URL_PATTERN@, text),
        Kind::Phone => regex_matches(PHONE_PATTERN@, text),
    };
    values_of(kind, matches, matches.len())
}

fn count_digits(v: &[char]) -> (r: usize)
    ensures
        r == digits_in(v@),
{
    let mut i: usize = 0;
    let mut n: usize = 0;
    while i < v.len()
        invariant
            i <= v@.len(),
            n <= i,
            n == digits_in(v@.take(i as int)),
        decreases v@.len() - i,
    {
        if '0' <= v[i] && v[i] <= '9' {
            n += 1;
        }
        i += 1;
        assert(v@.take(i as int).drop_last() =~= v@.take(i - 1));
    }
    assert(v@.take(i as int) =~= v@);
    n
}

/// The value that one match gives, if any.
pub fn clean_match(kind: Kind, m: &str) -> (r: Option<String>)
    ensures
        match r {
            Some(s) => value_of_match(kind, m@) == Some(s@),
            None => value_of_match(kind, m@) is None,
        },
{
    let v = to_chars(m);
    match kind {
        Kind::Email => {
            let s = trim_punct(&v);
            let s = from_chars(&s);
            if s.as_str().unicode_len() > 0 && is_plausible_email(s.as_str()) {
                Some(s)
            } else {
                None
            }
        },
        Kind::Url => {
            let s = trim_punct(&v);
            let mut full: Vec<char> = Vec::new();
            if starts_with(&s, "www.") {
                push_str(&mut full, "https://");
            }
            let ghost before = full@;
            push_range(&mut full, &s, 0, s.len());
            assert(s@.subrange(0, s@.len() as int) =~= s@);
            assert(before.len() == 0 ==> full@ =~= s@);
            assert("https://"@ + s@ =~= full@ || full@ =~= s@);
            let plain = replace_all(&full, "\\/", "/");
            if plain.len() > 0 {
                Some(from_chars(&plain))
            } else {
                None
            }
        },
        Kind::Phone => {
            let t = trim_chars(&v);
            if count_digits(&t) < 7 {
                return None;
            }
            let s = trim_punct(&t);
            if s.len() > 0 {
                Some(from_chars(&s))
            } else {
                None
            }
        },
    }
}

/// The values of these matches, each once, in order of first occurrence.
pub fn collect_values(kind: Kind, matches: &Vec<String>) -> (r: Vec<String>)
    ensures
        views(r@) == values_of(kind, views(matches@), matches@.len()),
{
    let ghost all = views(matches@);
    let mut out: Vec<String> = Vec::new();
    let mut i: usize = 0;
    assert(views(out@) =~= Seq::<Seq<char>>::empty());
    while i < matches.len()
        invariant
            i <= matches@.len(),
            all == views(matches@),
            views(out@) == values_of(kind, all, i as nat),
        decreases matches@.len() - i,
    {
        let ghost before = views(out@);
        assert(all[i as int] == matches@[i as int]@);
        match clean_match(kind, matches[i].as_str()) {
            Some(s) => {
                if !has_text(&out, s.as_str()) {
                    let ghost t = s@;
                    out.push(s);
                    assert(views(out@) =~= before.push(t));
                }
            },
            None => {},
        }
        i += 1;
    }
    out
}

pub fn find_emails(text: &str) -> (r: Vec<String>)
    ensures
        views(r@) == found(Kind::Email, text@),
{
    let plain = normalize_obfuscation(text);
    let matches = pattern_matches(EMAIL_PATTERN, plain.as_str());
    assert(views(matches@).len() == matches@.len());
    collect_values(Kind::Email, &matches)
}

pub fn find_urls(text: &str) -> (r: Vec<String>)
    ensures
        views(r@) == found(Kind::Url, text@),
{
    let matches = pattern_matches(URL_PATTERN, text);
    assert(views(matches@).len() == matches@.len());
    collect_values(Kind::Url, &matches)
}

pub fn find_phones(text: &str) -> (r: Vec<String>)
    ensures
        views(r@) == found(Kind::Phone, text@),
{
    let matches = pattern_matches(PHONE_PATTERN, text);
    assert(views(matches@).len() == matches@.len());
    collect_values(Kind::Phone, &matches)
}

/// Find all values of the given kind in `text`: each once, cleaned, in order of
/// first occurrence.
pub fn find(kind: Kind, text: &str) -> (r: Vec<String>)
    ensures
        views(r@) == found(kind, text@),
{
    match kind {
        Kind::Email => find_emails(text),
        Kind::Url => find_urls(text),
        Kind::Phone => find_phones(text),
    }
}

/// No value is found twice, and each is what some match gives.
pub proof fn law_found_values_are_distinct(kind: Kind, matches: Seq<Seq<char>>, n: nat)
    requires
        n <= matches.len(),
    ensures
        values_of(kind, matches, n).no_duplicates(),
        forall|i: int|
            0 <= i < values_of(kind, matches, n).len() ==> exists|k: int|
                0 <= k < n && value_of_match(kind, #[trigger] matches[k]) == Some(
                    #[trigger] values_of(kind, matches, n)[i],
                ),
        forall|k: int|
            0 <= k < n ==> (value_of_match(kind, #[trigger] matches[k]) matches Some(s)
                ==> values_of(kind, matches, n).contains(s)),
    decreases n,
{
    if n > 0 {
        let m = (n - 1) as nat;
        law_found_values_are_distinct(kind, matches, m);
        let before = values_of(kind, matches, m);
        let out = values_of(kind, matches, n);
        assert forall|i: int| 0 <= i < out.len() implies exists|k: int|
            0 <= k < n && value_of_match(kind, #[trigger] matches[k]) == Some(
                #[trigger] out[i],
            ) by {
            if i < before.len() {
                assert(out[i] == before[i]);
                let k = choose|k: int|
                    0 <= k < m && value_of_match(kind, #[trigger] matches[k]) == Some(before[i]);
                assert(value_of_match(kind, matches[k]) == Some(out[i]));
            } else {
                assert(value_of_match(kind, matches[n - 1]) == Some(out[i]));
            }
        }
        assert forall|k: int| 0 <= k < n implies (value_of_match(
            kind,
            #[trigger] matches[k],
        ) matches Some(s) ==> out.contains(s)) by {
            match value_of_match(kind, matches[k]) {
                Some(s) => {
                    if k < m {
                        assert(before.contains(s));
                        let j = choose|j: int| 0 <= j < before.len() && before[j] == s;
                        assert(out[j] == s);
                    } else if !before.contains(s) {
                        assert(out[before.len() as int] == s);
                    }
                },
                None => {},
            }
        }
    }
}

/// `value` is `text` without prose punctuation at its end, and keeps all the rest.
pub open spec fn cut_before_punctuation(value: Seq<char>, text: Seq<char>) -> bool {
    &&& value.is_prefix_of(text)
    &&& forall|i: int|
        value.len() <= i < text.len() ==> seq!['.', ',', ':', ';', '!', '?', ')', ']'].contains(
            #[trigger] text[i],
        )
    &&& value.len() > 0 ==> !seq!['.', ',', ':', ';', '!', '?', ')', ']'].contains(value.last())
}

proof fn lemma_trailing(c: char)
    ensures
        is_trailing(c) == seq!['.', ',', ':', ';', '!', '?', ')', ']'].contains(c),
{
    let s = seq!['.', ',', ':', ';', '!', '?', ')', ']'];
    assert(s[0] == '.' && s[1] == ',' && s[2] == ':' && s[3] == ';' && s[4] == '!' && s[5] == '?'
        && s[6] == ')' && s[7] == ']');
}

proof fn lemma_without_trailing(s: Seq<char>)
    ensures
        cut_before_punctuation(without_trailing(s), s),
    decreases s.len(),
{
    if s.len() > 0 {
        lemma_trailing(s.last());
        if is_trailing(s.last()) {
            let t = s.drop_last();
            lemma_without_trailing(t);
            let v = without_trailing(s);
            assert forall|i: int| v.len() <= i < s.len() implies seq![
                '.',
                ',',
                ':',
                ';',
                '!',
                '?',
                ')',
                ']',
            ].contains(#[trigger] s[i]) by {
                if i < t.len() {
                    assert(t[i] == s[i]);
                }
            }
        }
    }
}

/// The digits of a text, in order.
pub open spec fn digits_of(s: Seq<char>) -> Seq<char> {
    s.filter(|c: char| '0' <= c <= '9')
}

proof fn lemma_digits(s: Seq<char>)
    ensures
        digits_in(s) == digits_of(s).len(),
    decreases s.len(),
{
    reveal(Seq::filter);
    if s.len() > 0 {
        lemma_digits(s.drop_last());
    }
}

proof fn lemma_no_digits(s: Seq<char>)
    requires
        forall|i: int| 0 <= i < s.len() ==> !('0' <= #[trigger] s[i] <= '9'),
    ensures
        digits_of(s) == Seq::<char>::empty(),
    decreases s.len(),
{
    reveal(Seq::filter);
    if s.len() > 0 {
        lemma_no_digits(s.drop_last());
    }
}

/// A phone value keeps every digit of its match, in order: it is the match without the
/// white space around it and without prose punctuation at its end. Every match with
/// seven digits or more gives one, and no other does.
pub proof fn law_a_phone_number_keeps_every_digit(m: Seq<char>)
    ensures
        value_of_match(Kind::Phone, m) is Some <==> digits_of(m).len() >= 7,
        value_of_match(Kind::Phone, m) matches Some(v) ==> {
            &&& digits_of(v) == digits_of(m)
            &&& cut_before_punctuation(v, trim(m))
            &&& exists|i: int|
                #![trigger m.subrange(i, i + v.len())]
                0 <= i && i + v.len() <= m.len() && v == m.subrange(i, i + v.len()) && (forall|
                    k: int,
                |
                    0 <= k < i ==> is_space(#[trigger] m[k]))
        },
{
    let a = trim_start(m);
    let t = trim(m);
    let v = without_trailing(t);
    lemma_trim_start(m);
    lemma_trim_end(a);
    lemma_without_trailing(t);
    let i = m.len() - a.len();
    let head = m.take(i);
    let white = a.skip(t.len() as int);
    let tail = t.skip(v.len() as int);
    assert(m =~= head + a);
    assert(a =~= t + white);
    assert(t =~= v + tail);
    assert forall|k: int| 0 <= k < tail.len() implies !('0' <= #[trigger] tail[k] <= '9') by {
        lemma_trailing(t[v.len() + k]);
    }
    lemma_no_digits(head);
    lemma_no_digits(white);
    lemma_no_digits(tail);
    let digit = |c: char| '0' <= c <= '9';
    Seq::filter_distributes_over_add(head, a, digit);
    Seq::filter_distributes_over_add(t, white, digit);
    Seq::filter_distributes_over_add(v, tail, digit);
    assert(digits_of(m) =~= digits_of(v));
    assert(digits_of(t) =~= digits_of(v));
    lemma_digits(t);
    if v.len() == 0 {
        lemma_no_digits(v);
    }
    assert(m.subrange(i, i + v.len()) =~= v);
}

/// An address of a person that is found is its match without prose punctuation at its
/// end, and every plausible one is found.
pub proof fn law_a_found_address_is_its_match(m: Seq<char>)
    ensures
        value_of_match(Kind::Email, m) matches Some(v) ==> cut_before_punctuation(v, m)
            && plausible(v),
        forall|v: Seq<char>| #[trigger]
            cut_before_punctuation(v, m) && plausible(v) ==> value_of_match(Kind::Email, m)
                == Some(v),
{
    let s = without_trailing(m);
    lemma_without_trailing(m);
    assert forall|v: Seq<char>| #[trigger]
        cut_before_punctuation(v, m) && plausible(v) implies value_of_match(Kind::Email, m)
        == Some(v) by {
        if v.len() < s.len() {
            assert(m[s.len() - 1] == s.last());
        }
        if s.len() < v.len() {
            assert(m[v.len() - 1] == v.last());
        }
        assert(v =~= s);
        if v.len() == 0 {
            reveal_strlit("@");
            lemma_rfind(v, 0, "@"@);
        }
    }
}

/// An address of a page that is found is its match without prose punctuation at its end;
/// a bare one gets its scheme, and an escaped slash its plain form.
pub proof fn law_a_found_page_is_its_match(v: Seq<char>, tail: Seq<char>)
    requires
        v.len() > 0,
        cut_before_punctuation(v, v + tail),
        !v.contains('\\'),
    ensures
        starts(v, "www."@) ==> value_of_match(Kind::Url, v + tail) == Some("https://"@ + v),
        !starts(v, "www."@) ==> value_of_match(Kind::Url, v + tail) == Some(v),
        forall|i: int|
            #![trigger v.take(i)]
            4 <= i < v.len() && v[i] == '/' && !starts(v, "www."@) ==> value_of_match(
                Kind::Url,
                v.take(i) + seq!['\\'] + v.skip(i) + tail,
            ) == Some(v),
{
    let m = v + tail;
    let s = without_trailing(m);
    lemma_without_trailing(m);
    if v.len() < s.len() {
        assert(m[s.len() - 1] == s.last());
    }
    if s.len() < v.len() {
        assert(m[v.len() - 1] == v.last());
    }
    assert(v =~= s);
    reveal_strlit("\\/");
    reveal_strlit("/");
    reveal_strlit("https://");
    reveal_strlit("www.");
    let full = if starts(v, "www."@) {
        "https://"@ + v
    } else {
        v
    };
    assert forall|i: int| !match_at(full, i, "\\/"@) by {
        if match_at(full, i, "\\/"@) {
            assert(full.subrange(i, i + 2)[0] == full[i]);
            let k = if starts(v, "www."@) {
                i - 8
            } else {
                i
            };
            if k >= 0 {
                assert(v[k] == '\\');
            }
        }
    }
    lemma_replace_absent(full, 0, "\\/"@, "/"@);
    assert(full.subrange(0, full.len() as int) =~= full);
    assert forall|i: int|
        #![trigger v.take(i)]
        4 <= i < v.len() && v[i] == '/' && !starts(v, "www."@) implies value_of_match(
        Kind::Url,
        v.take(i) + seq!['\\'] + v.skip(i) + tail,
    ) == Some(v) by {
        let w = v.take(i) + seq!['\\'] + v.skip(i);
        let n = w + tail;
        let u = without_trailing(n);
        lemma_without_trailing(n);
        assert(w.last() == v.last());
        assert forall|k: int| w.len() <= k < n.len() implies seq![
            '.',
            ',',
            ':',
            ';',
            '!',
            '?',
            ')',
            ']',
        ].contains(#[trigger] n[k]) by {
            assert(n[k] == m[k - 1]);
        }
        if w.len() < u.len() {
            assert(n[u.len() - 1] == u.last());
        }
        if u.len() < w.len() {
            assert(n[w.len() - 1] == w.last());
        }
        assert(u =~= w);
        assert(!starts(w, "www."@)) by {
            if starts(w, "www."@) {
                assert(w.take(4) =~= v.take(4));
                assert(match_at(w, 0, "www."@));
                assert(w.subrange(0, 4) =~= v.subrange(0, 4));
                assert(match_at(v, 0, "www."@));
            }
        }
        assert forall|j: int| 0 <= j < i implies !#[trigger] match_at(w, j, "\\/"@) by {
            if match_at(w, j, "\\/"@) {
                assert(w.subrange(j, j + 2)[0] == w[j]);
                assert(v[j] == '\\');
            }
        }
        lemma_replace_run(w, 0, i, "\\/"@, "/"@);
        assert(w.subrange(i, i + 2) =~= "\\/"@);
        assert(match_at(w, i, "\\/"@));
        assert forall|j: int| i + 2 <= j < w.len() implies !#[trigger] match_at(w, j, "\\/"@) by {
            if match_at(w, j, "\\/"@) {
                assert(w.subrange(j, j + 2)[0] == w[j]);
                assert(v[j - 1] == '\\');
            }
        }
        lemma_replace_run(w, i + 2, w.len() as int, "\\/"@, "/"@);
        assert(replace(w, "\\/"@, "/"@) =~= v);
    }
}

/// Values come in the order in which they are first matched: what a longer list of
/// matches gives starts with what a shorter one gave.
pub proof fn law_values_come_in_order(kind: Kind, matches: Seq<Seq<char>>, n: nat, more: nat)
    requires
        n <= more <= matches.len(),
    ensures
        values_of(kind, matches, n).is_prefix_of(values_of(kind, matches, more)),
        values_of(kind, matches, more).len() <= more,
    decreases more,
{
    if more > 0 {
        if n < more {
            law_values_come_in_order(kind, matches, n, (more - 1) as nat);
        } else {
            law_values_come_in_order(kind, matches, (n - 1) as nat, (more - 1) as nat);
        }
    }
}

/// A template's or a hiding script's address is not plausible, whatever its case, and
/// any other is.
pub proof fn law_placeholders_are_not_plausible(local: Seq<char>, domain: Seq<char>)
    requires
        all_ascii(local),
        all_ascii(domain),
        !domain.contains('@'),
    ensures
        !plausible(local + "@"@ + domain) <==> lower_all(local) == "email"@ || holds(
            lower_all(local),
            "protected"@,
        ) || seq!["example.com"@, "example.org"@, "domain.com"@, "email.com"@, "test.com"@].contains(
            lower_all(domain),
        ),
        !plausible(domain),
{
    reveal_strlit("@");
    let s = local + "@"@ + domain;
    let k = local.len() as int;
    lemma_rfind(s, s.len() as int, "@"@);
    assert(s.subrange(k, k + 1) =~= "@"@);
    assert(match_at(s, k, "@"@));
    let found = rfind_from(s, s.len() as int, "@"@)->0;
    if found > k {
        assert(s.subrange(found, found + 1)[0] == domain[found - k - 1]);
    }
    assert(s.take(k) =~= local);
    assert(s.subrange(k + 1, s.len() as int) =~= domain);
    let bad = seq!["example.com"@, "example.org"@, "domain.com"@, "email.com"@, "test.com"@];
    assert(bad[0] == "example.com"@ && bad[1] == "example.org"@ && bad[2] == "domain.com"@ && bad[3]
        == "email.com"@ && bad[4] == "test.com"@);
    lemma_rfind(domain, domain.len() as int, "@"@);
    match rfind_from(domain, domain.len() as int, "@"@) {
        Some(j) => {
            assert(domain.subrange(j, j + 1)[0] == domain[j]);
        },
        None => {},
    }
}

/// The case of a field's name does not matter to its kind, and what it holds besides the
/// telling word matters only where that tells of an earlier kind.
pub proof fn law_a_telling_word_is_enough(before: Seq<char>, after: Seq<char>)
    ensures
        kind_of(lower_all(before)) == kind_of(before),
        kind_of(before + "email"@ + after) == Some(Kind::Email),
        kind_of(before + "correo"@ + after) == Some(Kind::Email),
        kind_of(before + "web"@ + after) is Some,
        kind_of(before + "web"@ + after) != Some(Kind::Phone),
        kind_of(before + "url"@ + after) is Some,
        kind_of(before + "url"@ + after) != Some(Kind::Phone),
        kind_of(before + "tel"@ + after) is Some,
        kind_of(before + "phone"@ + after) is Some,
{
    assert(lower_all(lower_all(before)) =~= lower_all(before));
    reveal_strlit("email");
    reveal_strlit("correo");
    reveal_strlit("web");
    reveal_strlit("url");
    reveal_strlit("tel");
    reveal_strlit("phone");
    assert(lower_all("email"@) =~= "email"@);
    assert(lower_all("correo"@) =~= "correo"@);
    assert(lower_all("web"@) =~= "web"@);
    assert(lower_all("url"@) =~= "url"@);
    assert(lower_all("tel"@) =~= "tel"@);
    assert(lower_all("phone"@) =~= "phone"@);
    lemma_lowered_holds(before, "email"@, after);
    lemma_lowered_holds(before, "correo"@, after);
    lemma_lowered_holds(before, "web"@, after);
    lemma_lowered_holds(before, "url"@, after);
    lemma_lowered_holds(before, "tel"@, after);
    lemma_lowered_holds(before, "phone"@, after);
}

proof fn lemma_lowered_holds(before: Seq<char>, word: Seq<char>, after: Seq<char>)
    ensures
        lower_all(word) == word ==> holds(lower_all(before + word + after), word),
{
    let s = lower_all(before + word + after);
    if lower_all(word) == word {
        let n = before.len() as int;
        assert forall|i: int| 0 <= i < word.len() implies s[n + i] == #[trigger] word[i] by {
            assert(lower_all(word)[i] == lower(word[i]));
        }
        assert(s.subrange(n, n + word.len()) =~= word);
        assert(match_at(s, n, word));
    }
}

// ----------------------------------------------------------------- presence --

/// A text as it is compared: lower case, one line, JSON's slashes restored.
pub open spec fn comparable(s: Seq<char>) -> Seq<char> {
    replace(squeeze(lowercase(s)), "\\/"@, "/"@)
}

/// `value` stands in `text` as compared, or once obfuscations are undone.
pub open spec fn appears(value: Seq<char>, text: Seq<char>) -> bool {
    ||| holds(comparable(text), comparable(value))
    ||| holds(plain_addresses(comparable(text)), plain_addresses(comparable(value)))
}

fn compare_form(s: &str) -> (r: Vec<char>)
    ensures
        r@ == comparable(s@),
{
    let low = to_lower(s);
    let v = to_chars(low.as_str());
    let one_line = squeeze_spaces(&v);
    replace_all(&one_line, "\\/", "/")
}

/// A piece of the text, in lower case and on one line, is a spelling of the address.
pub open spec fn written_in(value: Seq<char>, text: Seq<char>) -> bool {
    exists|i: int, j: int|
        0 <= i <= j <= text.len() && #[trigger] spells(
            lower_all(value),
            squeeze(lower_all(text.subrange(i, j))),
            0,
        )
}

/// Case-insensitive, whitespace-normalised substring check that also sees
/// through obfuscated addresses: of ASCII text without backslashes, an address is seen
/// however its signs are spelled.
pub fn appears_in(value: &str, text: &str) -> (r: bool)
    ensures
        r == appears(value@, text@),
        is_address(value@) && all_ascii(value@) && !value@.contains('\\') && all_ascii(text@)
            && !text@.contains('\\') && written_in(value@, text@) ==> r,
{
    let v = compare_form(value);
    let t = compare_form(text);
    if contains_chars(&t, &v) {
        return true;
    }
    let v_text = from_chars(&v);
    let t_text = from_chars(&t);
    let v_plain = normalize_obfuscation(v_text.as_str());
    let t_plain = normalize_obfuscation(t_text.as_str());
    let v_chars = to_chars(v_plain.as_str());
    let t_chars = to_chars(t_plain.as_str());
    proof {
        if is_address(value@) && all_ascii(value@) && !value@.contains('\\') && all_ascii(text@)
            && !text@.contains('\\') && written_in(value@, text@) {
            lemma_written(value@, text@);
        }
    }
    contains_chars(&t_chars, &v_chars)
}

/// An address in lower case is an address.
proof fn lemma_lower_address(v: Seq<char>)
    requires
        is_address(v),
    ensures
        is_address(lower_all(v)),
        !lower_all(v).contains(' '),
{
    let low = lower_all(v);
    assert forall|i: int| 0 <= i < low.len() implies !is_space(#[trigger] low[i]) && !opens(low[i])
        && !closes(low[i]) by {
        assert(!is_space(v[i]) && !opens(v[i]) && !closes(v[i]));
    }
    assert forall|i: int, j: int|
        0 <= i && j == i + 1 && j < low.len() && is_sign(#[trigger] low[i]) implies !is_sign(
        #[trigger] low[j],
    ) by {
        assert(is_sign(v[i]));
        assert(!is_sign(v[j]));
    }
    assert(low.last() == lower(v.last()));
    let at = choose|at: int| 0 <= at < v.len() && v[at] == '@';
    assert(low[at] == '@');
    assert(is_space(' '));
}

/// A text without white space is one word.
proof fn lemma_one_word(v: Seq<char>)
    requires
        v.len() > 0,
        forall|k: int| 0 <= k < v.len() ==> !is_space(#[trigger] v[k]),
    ensures
        squeeze(v) == v,
{
    lemma_whole_word(v, 0);
    assert(v.subrange(0, v.len() as int) =~= v);
    assert(words_from(v, v.len() as int) =~= Seq::<Seq<char>>::empty());
    assert(words(v) =~= seq![v]);
    reveal_with_fuel(join, 2);
    assert(squeeze(v) =~= v);
}

proof fn lemma_whole_word(v: Seq<char>, i: int)
    requires
        0 <= i <= v.len(),
        forall|k: int| 0 <= k < v.len() ==> !is_space(#[trigger] v[k]),
    ensures
        word_end(v, i) == v.len(),
    decreases v.len() - i,
{
    if i < v.len() {
        lemma_whole_word(v, i + 1);
    }
}

/// What is compared of ASCII text is ASCII and in lower case.
proof fn lemma_comparable_lower(s: Seq<char>)
    requires
        all_ascii(s),
        !s.contains('\\'),
    ensures
        lowercase(comparable(s)) == comparable(s),
{
    lemma_comparable(s);
    let low = lower_all(s);
    let t = squeeze(low);
    assert forall|i: int| 0 <= i < t.len() implies (#[trigger] t[i] as u32) < 0x80 && lower(t[i])
        == t[i] by {
        if t[i] != ' ' {
            assert(t.contains(t[i]));
            lemma_squeeze_chars(low, t[i]);
            let k = choose|k: int| 0 <= k < low.len() && low[k] == t[i];
            assert((s[k] as u32) < 0x80);
            assert(low[k] == lower(s[k]));
        }
    }
    assert(lower_all(t) =~= t);
}

/// An address that a text spells out stands in the text once spellings are undone.
proof fn lemma_written(value: Seq<char>, text: Seq<char>)
    requires
        is_address(value),
        all_ascii(value),
        !value.contains('\\'),
        all_ascii(text),
        !text.contains('\\'),
        written_in(value, text),
    ensures
        ({
            let v = unbracketed(lowercase(comparable(value)));
            &&& !v.contains(' ')
            &&& stands(unbracketed(lowercase(comparable(text))), v)
        }),
{
    let low = lower_all(value);
    lemma_lower_address(value);
    lemma_comparable(value);
    lemma_comparable(text);
    lemma_comparable_lower(value);
    lemma_comparable_lower(text);
    lemma_one_word(low);
    assert(comparable(value) == low);
    lemma_plain_address(low);
    let (i, j) = choose|i: int, j: int|
        0 <= i <= j <= text.len() && #[trigger] spells(
            low,
            squeeze(lower_all(text.subrange(i, j))),
            0,
        );
    let t = lower_all(text);
    let a = t.take(i);
    let w = lower_all(text.subrange(i, j));
    let b = t.subrange(j, t.len() as int);
    assert(t =~= a + w + b);
    lemma_squeeze_holds(a, w, b);
    let whole = squeeze(t);
    let sw = squeeze(w);
    let k = choose|k: int| match_at(whole, k, sw);
    let x = whole.take(k);
    let y = whole.subrange(k + sw.len(), whole.len() as int);
    assert(whole =~= x + sw + y);
    lemma_unbracketed_address(x, sw, y, low);
}

/// What is compared of ASCII text without backslashes: its words in lower case.
proof fn lemma_comparable(s: Seq<char>)
    requires
        all_ascii(s),
        !s.contains('\\'),
    ensures
        comparable(s) == squeeze(lower_all(s)),
{
    let low = lower_all(s);
    let t = squeeze(low);
    reveal_strlit("\\/");
    if holds(t, "\\/"@) {
        let i = choose|i: int| match_at(t, i, "\\/"@);
        assert(t.subrange(i, i + 2)[0] == t[i]);
        lemma_squeeze_chars(low, '\\');
        let j = choose|j: int| 0 <= j < low.len() && low[j] == '\\';
        assert(s[j] == '\\');
    }
    lemma_replace_absent(t, 0, "\\/"@, "/"@);
    assert(t.subrange(0, t.len() as int) =~= t);
}

/// Case and white space do not matter: a value appears wherever its words stand, in any
/// case and however they are spaced. Of ASCII text without backslashes.
pub proof fn law_case_and_spacing_do_not_matter(
    value: Seq<char>,
    written: Seq<char>,
    a: Seq<char>,
    b: Seq<char>,
)
    requires
        all_ascii(value),
        all_ascii(a + written + b),
        !value.contains('\\'),
        !(a + written + b).contains('\\'),
        words(lower_all(value)) == words(lower_all(written)),
    ensures
        appears(value, a + written + b),
{
    let text = a + written + b;
    lemma_comparable(value);
    lemma_comparable(text);
    assert(lower_all(text) =~= lower_all(a) + lower_all(written) + lower_all(b));
    lemma_squeeze_holds(lower_all(a), lower_all(written), lower_all(b));
}

} // verus!
