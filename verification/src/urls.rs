//! Addresses: identity, display, redirects, escapes.
use vstd::prelude::*;
use vstd::string::*;
use vstd::utf8::*;
use crate::entity::{is_run, lemma_run_end, lemma_runs, run_end, runs_from, split_runs};
use crate::numeral::{hex_digit, hex_parsed, is_hex_digit, parse_hex_u32};
use crate::order::{
    law_sorting_orders_the_same_pairs, lemma_order_is_unique, pairs_view, sort_pairs, sorted_pairs,
};
use crate::scan::{
    blank, char_views, ends, ends_with, holds, join, lemma_lower_words, lemma_rfind,
    lemma_trim_blank, lemma_trim_end, lemma_trim_end_add, lemma_trim_start, lemma_trim_start_add,
    lemma_words_before_blank, lemma_words_suffix, lemma_words_trim, match_at, rfind, rfind_from,
    split_words, starts, starts_with, trim, trim_chars, trim_end, trim_start, trim_str, word_end,
    words, words_from,
};
use crate::text::{
    all_ascii, from_chars, from_range, is_alnum, is_ascii_alnum, is_space, lower, lower_all,
    lowercase, push_range, push_str, str_eq, str_views, sub_chars, to_ascii_lower, to_chars,
    to_lower,
};
use crate::types::Hit;

verus! {

// ------------------------------------------------------------ the parser --

/// What the rules here read of a parsed address.
#[derive(Debug)]
pub struct ParsedUrl {
    pub host: Option<String>,
    pub path: String,
    /// The query's names and values, decoded, in order.
    pub pairs: Vec<(String, String)>,
    /// The address as the parser writes it.
    pub text: String,
}

/// A parsed address as a value.
pub struct UrlView {
    pub host: Option<Seq<char>>,
    pub path: Seq<char>,
    pub pairs: Seq<(Seq<char>, Seq<char>)>,
    pub text: Seq<char>,
}

impl View for ParsedUrl {
    type V = UrlView;

    open spec fn view(&self) -> UrlView {
        UrlView {
            host: match self.host {
                Some(h) => Some(h@),
                None => None,
            },
            path: self.path@,
            pairs: pairs_view(self.pairs@),
            text: self.text@,
        }
    }
}

/// What `url::Url::parse` makes of a text, or nothing where it refuses it.
pub uninterp spec fn url_parts(s: Seq<char>) -> Option<UrlView>;

/// `url::Url::parse`, and of the address it gives the host (`host_str`), the
/// path (`path`), the decoded query (`query_pairs`) and the whole text
/// (`to_string`). Claimed: the text alone decides them. The URL standard's
/// parsing rules are not restated.
#[verifier::external_body]
pub(crate) fn parse_url(s: &str) -> (r: Option<ParsedUrl>)
    ensures
        match r {
            Some(u) => url_parts(s@) == Some(u@),
            None => url_parts(s@) is None,
        },
{
    match url::Url::parse(s) {
        Ok(u) => Some(ParsedUrl {
            host: u.host_str().map(|h| h.to_string()),
            path: u.path().to_string(),
            pairs: u.query_pairs().map(|(k, v)| (k.into_owned(), v.into_owned())).collect(),
            text: u.to_string(),
        }),
        Err(_) => None,
    }
}

/// What `url::Url::join` makes of a reference on a base, or nothing where the
/// base or the reference is refused.
pub uninterp spec fn url_joined(base: Seq<char>, reference: Seq<char>) -> Option<Seq<char>>;

/// `url::Url::join` of `reference` onto the address that `base` parses to, as
/// text. Claimed: the two texts alone decide it, and there is no result where
/// the base does not parse.
#[verifier::external_body]
pub(crate) fn join_url(base: &str, reference: &str) -> (r: Option<String>)
    ensures
        match r {
            Some(t) => url_joined(base@, reference@) == Some(t@) && url_parts(base@) is Some,
            None => url_joined(base@, reference@) is None,
        },
{
    url::Url::parse(base).ok().and_then(|b| b.join(reference).ok()).map(|u| u.to_string())
}

/// Longest address, and longest query put into one, that the parser's offsets are
/// sure to hold, in characters.
pub const URL_LIMIT: usize = 0x0800_0000;

/// What `url::Url::set_query` makes of an address: its text with this query.
pub uninterp spec fn url_with_query(s: Seq<char>, query: Option<Seq<char>>) -> Option<Seq<char>>;

/// `url::Url::set_query` on the address that `s` parses to, as text. Claimed:
/// the two arguments alone decide it, and there is a result exactly where `s`
/// parses. The bounds keep the new text within the parser's 32-bit offsets,
/// past which `set_query` panics: no character takes more than twelve bytes of it.
#[verifier::external_body]
pub(crate) fn set_query(s: &str, query: Option<&str>) -> (r: Option<String>)
    requires
        s@.len() <= URL_LIMIT,
        query matches Some(q) ==> q@.len() <= URL_LIMIT,
    ensures
        match r {
            Some(t) => url_with_query(
                s@,
                match query {
                    Some(q) => Some(q@),
                    None => None,
                },
            ) == Some(t@) && url_parts(s@) is Some,
            None => url_parts(s@) is None,
        },
{
    url::Url::parse(s).ok().map(|mut u| { u.set_query(query); u.to_string() })
}

// --------------------------------------------------------------- escapes --

/// The two escaping rules in use: a query component, and a form field.
#[derive(Clone, Copy, PartialEq, Eq, Structural)]
pub enum Escape {
    Component,
    Form,
}

/// A byte that stands for itself.
pub open spec fn kept(e: Escape, b: u8) -> bool {
    ||| 0x30 <= b <= 0x39
    ||| 0x41 <= b <= 0x5A
    ||| 0x61 <= b <= 0x7A
    ||| b == 0x2D
    ||| b == 0x2E
    ||| b == 0x5F
    ||| (e == Escape::Component && b == 0x7E)
    ||| (e == Escape::Form && b == 0x2A)
}

pub open spec fn upper_digit(d: nat) -> char {
    if d < 10 {
        (0x30 + d) as char
    } else {
        (0x37 + d) as char
    }
}

/// One byte escaped: itself, a plus for a space, or a percent sign and its value
/// in two upper-case hexadecimal digits.
pub open spec fn escaped_byte(e: Escape, b: u8) -> Seq<char> {
    if kept(e, b) {
        seq![b as char]
    } else if b == 0x20 {
        seq!['+']
    } else {
        seq!['%', upper_digit((b / 16) as nat), upper_digit((b % 16) as nat)]
    }
}

pub open spec fn escaped(e: Escape, b: Seq<u8>) -> Seq<char>
    decreases b.len(),
{
    if b.len() == 0 {
        Seq::empty()
    } else {
        escaped(e, b.drop_last()) + escaped_byte(e, b.last())
    }
}

fn upper_digit_char(d: u8) -> (r: char)
    requires
        d < 16,
    ensures
        r == upper_digit(d as nat),
{
    match d {
        0 => '0', 1 => '1', 2 => '2', 3 => '3', 4 => '4', 5 => '5', 6 => '6', 7 => '7',
        8 => '8', 9 => '9', 10 => 'A', 11 => 'B', 12 => 'C', 13 => 'D', 14 => 'E', _ => 'F',
    }
}

fn is_kept(e: Escape, b: u8) -> (r: bool)
    ensures
        r == kept(e, b),
{
    (0x30 <= b && b <= 0x39) || (0x41 <= b && b <= 0x5A) || (0x61 <= b && b <= 0x7A) || b == 0x2D
        || b == 0x2E || b == 0x5F || (e == Escape::Component && b == 0x7E) || (e == Escape::Form
        && b == 0x2A)
}

fn push_escaped(out: &mut Vec<char>, e: Escape, s: &str)
    ensures
        final(out)@ == old(out)@ + escaped(e, encode_utf8(s@)),
{
    let b = s.as_bytes();
    let ghost all = encode_utf8(s@);
    let mut i: usize = 0;
    assert(out@ =~= old(out)@ + escaped(e, all.take(0)));
    while i < b.len()
        invariant
            i <= b@.len(),
            b@ == all,
            out@ == old(out)@ + escaped(e, all.take(i as int)),
        decreases b@.len() - i,
    {
        let x: u8 = b[i];
        let ghost before = out@;
        if is_kept(e, x) {
            out.push(x as char);
        } else if x == 0x20 {
            out.push('+');
        } else {
            out.push('%');
            out.push(upper_digit_char(x / 16));
            out.push(upper_digit_char(x % 16));
        }
        i += 1;
        proof {
            assert(all.take(i as int).drop_last() =~= all.take(i - 1));
            assert(out@ =~= before + escaped_byte(e, x));
            assert(out@ =~= old(out)@ + escaped(e, all.take(i as int)));
        }
    }
    assert(all.take(i as int) =~= all);
}

/// Percent-encode a query component.
pub fn urlencode(s: &str) -> (r: String)
    ensures
        r@ == escaped(Escape::Component, encode_utf8(s@)),
{
    let mut out: Vec<char> = Vec::new();
    push_escaped(&mut out, Escape::Component, s);
    assert(out@ =~= escaped(Escape::Component, encode_utf8(s@)));
    from_chars(&out)
}

/// What `String::from_utf8_lossy` makes of bytes that are not all UTF-8.
pub uninterp spec fn lossy_text(b: Seq<u8>) -> Seq<char>;

/// The text of these bytes.
pub open spec fn text_of_bytes(b: Seq<u8>) -> Seq<char> {
    if valid_utf8(b) {
        decode_utf8(b)
    } else {
        lossy_text(b)
    }
}

/// `String::from_utf8_lossy`: the text of UTF-8 bytes. Of other bytes only that
/// they alone decide the text.
#[verifier::external_body]
pub(crate) fn from_utf8_lossy(b: &Vec<u8>) -> (r: String)
    ensures
        r@ == (if valid_utf8(b@) {
            decode_utf8(b@)
        } else {
            lossy_text(b@)
        }),
{
    String::from_utf8_lossy(b).into_owned()
}

/// The bytes of `b` from index `i` on with every percent escape as its byte. An
/// escape needs two characters behind the percent sign that read as a
/// hexadecimal number.
pub open spec fn unescaped(b: Seq<u8>, i: int) -> Seq<u8>
    decreases b.len() - i,
{
    if i < 0 || i >= b.len() {
        Seq::empty()
    } else if b[i] == 0x25 && i + 2 < b.len() && escape_value(b[i + 1], b[i + 2]) is Some {
        seq![escape_value(b[i + 1], b[i + 2])->0] + unescaped(b, i + 3)
    } else {
        seq![b[i]] + unescaped(b, i + 1)
    }
}

pub open spec fn escape_value(x: u8, y: u8) -> Option<u8> {
    match hex_parsed(seq![x as char, y as char], u32::MAX as nat) {
        Some(n) => if n <= 255 {
            Some(n as u8)
        } else {
            None
        },
        None => None,
    }
}

fn read_escape(x: u8, y: u8) -> (r: Option<u8>)
    ensures
        r == escape_value(x, y),
{
    let v = vec![x as char, y as char];
    assert(v@ =~= seq![x as char, y as char]);
    match parse_hex_u32(&v) {
        Some(n) => if n <= 255 {
            Some(n as u8)
        } else {
            None
        },
        None => None,
    }
}

/// Undo percent-encoding in a path segment, best effort.
pub fn percent_encoding_recover(s: &str) -> (r: String)
    ensures
        r@ == text_of_bytes(unescaped(encode_utf8(s@), 0)),
{
    let b = s.as_bytes();
    let ghost all = encode_utf8(s@);
    let mut out: Vec<u8> = Vec::new();
    let mut i: usize = 0;
    assert(out@ + unescaped(all, 0) =~= unescaped(all, 0));
    while i < b.len()
        invariant
            i <= b@.len(),
            b@ == all,
            out@ + unescaped(all, i as int) == unescaped(all, 0),
        decreases b@.len() - i,
    {
        let ghost before = out@;
        if b[i] == 0x25 && b.len() - i > 2 {
            match read_escape(b[i + 1], b[i + 2]) {
                Some(x) => {
                    out.push(x);
                    i += 3;
                    assert(before + (seq![x] + unescaped(all, i as int)) =~= out@ + unescaped(
                        all,
                        i as int,
                    ));
                    continue;
                },
                None => {},
            }
        }
        out.push(b[i]);
        i += 1;
        assert(before + (seq![all[i - 1]] + unescaped(all, i as int)) =~= out@ + unescaped(
            all,
            i as int,
        ));
    }
    assert(out@ + unescaped(all, i as int) =~= out@);
    from_utf8_lossy(&out)
}

proof fn lemma_ascii_scalar(c: char)
    requires
        (c as u32) < 0x80,
    ensures
        encode_scalar(c as u32).len() == 1,
        encode_scalar(c as u32)[0] as char == c,
{
    let n = c as u32;
    assert(encode_scalar(n)[0] == n as u8) by {
        assert(n < 0x80 ==> (n & 0x7F) as u8 == n as u8) by (bit_vector);
    }
}

proof fn lemma_ascii_bytes(t: Seq<char>)
    requires
        all_ascii(t),
    ensures
        encode_utf8(t).len() == t.len(),
        forall|i: int| 0 <= i < t.len() ==> (#[trigger] encode_utf8(t)[i]) as char == t[i],
    decreases t.len(),
{
    if t.len() > 0 {
        let rest = t.drop_first();
        assert forall|i: int| 0 <= i < rest.len() implies (#[trigger] rest[i] as u32) < 0x80 by {
            assert(rest[i] == t[i + 1]);
        }
        lemma_ascii_bytes(rest);
        assert((t[0] as u32) < 0x80);
        lemma_ascii_scalar(t[0]);
        assert forall|i: int| 0 <= i < t.len() implies (#[trigger] encode_utf8(t)[i]) as char
            == t[i] by {
            if i > 0 {
                assert(encode_utf8(t)[i] == encode_utf8(rest)[i - 1]);
                assert(rest[i - 1] == t[i]);
            } else {
                assert(encode_utf8(t)[0] == encode_scalar(t[0] as u32)[0]);
            }
        }
    }
}

/// What stands before it does not matter to what is unescaped.
proof fn lemma_unescaped_suffix(a: Seq<u8>, b: Seq<u8>, i: int)
    requires
        0 <= i <= b.len(),
    ensures
        unescaped(a + b, a.len() + i) == unescaped(b, i),
    decreases b.len() - i,
{
    let s = a + b;
    let k = a.len() + i;
    if i < b.len() {
        assert(s[k] == b[i]);
        if i + 2 < b.len() {
            assert(s[k + 1] == b[i + 1] && s[k + 2] == b[i + 2]);
            lemma_unescaped_suffix(a, b, i + 3);
        }
        lemma_unescaped_suffix(a, b, i + 1);
    }
}

proof fn lemma_escape_value(b: u8)
    ensures
        escape_value(
            upper_digit((b / 16) as nat) as u8,
            upper_digit((b % 16) as nat) as u8,
        ) == Some(b),
{
    let x = upper_digit((b / 16) as nat);
    let y = upper_digit((b % 16) as nat);
    let s = seq![(x as u8) as char, (y as u8) as char];
    assert((x as u8) as char == x && (y as u8) as char == y);
    assert(is_hex_digit(x) && is_hex_digit(y) && x != '+');
    assert(crate::numeral::unsigned_part(s) =~= s);
    reveal_with_fuel(crate::numeral::hex_value_of, 3);
    assert(s.drop_last() =~= seq![x]);
    assert(seq![x].drop_last() =~= Seq::<char>::empty());
    assert(crate::numeral::hex_digit_value(x) == b / 16);
    assert(crate::numeral::hex_digit_value(y) == b % 16);
    assert(crate::numeral::hex_value_of(s) == b);
}

proof fn lemma_escaped_first(e: Escape, b: Seq<u8>)
    requires
        b.len() > 0,
    ensures
        escaped(e, b) == escaped_byte(e, b[0]) + escaped(e, b.drop_first()),
    decreases b.len(),
{
    if b.len() == 1 {
        assert(b.drop_last() =~= Seq::<u8>::empty());
        assert(b.drop_first() =~= Seq::<u8>::empty());
        assert(escaped(e, b) =~= escaped_byte(e, b[0]) + escaped(e, b.drop_first()));
    } else {
        lemma_escaped_first(e, b.drop_last());
        assert(b.drop_last().drop_first() =~= b.drop_first().drop_last());
        assert(b.drop_first().last() == b.last());
        assert(escaped(e, b) =~= escaped_byte(e, b[0]) + escaped(e, b.drop_first()));
    }
}

proof fn lemma_escaped_ascii(e: Escape, b: Seq<u8>)
    ensures
        all_ascii(escaped(e, b)),
    decreases b.len(),
{
    if b.len() > 0 {
        lemma_escaped_ascii(e, b.drop_last());
        let x = b.last();
        assert(all_ascii(escaped_byte(e, x)));
    }
}

/// The bytes of an escaped text, unescaped.
proof fn lemma_unescape_escaped(b: Seq<u8>)
    requires
        forall|i: int| 0 <= i < b.len() ==> #[trigger] b[i] != 0x20,
    ensures
        unescaped(encode_utf8(escaped(Escape::Component, b)), 0) == b,
    decreases b.len(),
{
    let e = Escape::Component;
    let t = escaped(e, b);
    lemma_escaped_ascii(e, b);
    lemma_ascii_bytes(t);
    if b.len() == 0 {
        assert(unescaped(encode_utf8(t), 0) =~= b);
    } else {
        let rest = b.drop_first();
        assert forall|i: int| 0 <= i < rest.len() implies #[trigger] rest[i] != 0x20 by {
            assert(rest[i] == b[i + 1]);
        }
        lemma_unescape_escaped(rest);
        lemma_escaped_first(e, b);
        lemma_escaped_ascii(e, rest);
        lemma_ascii_bytes(escaped(e, rest));
        let head = escaped_byte(e, b[0]);
        assert(b[0] != 0x20);
        let bytes = encode_utf8(t);
        let tail = encode_utf8(escaped(e, rest));
        let front = bytes.take(head.len() as int);
        assert(bytes =~= front + tail) by {
            assert forall|i: int| 0 <= i < tail.len() implies bytes[head.len() + i] == tail[i] by {
                assert(t[head.len() + i] == escaped(e, rest)[i]);
                assert(bytes[head.len() + i] as char == tail[i] as char);
            }
        }
        lemma_unescaped_suffix(front, tail, 0);
        assert(bytes[0] as char == t[0] && t[0] == head[0]);
        if kept(e, b[0]) {
            assert(bytes[0] == b[0]);
            assert(b[0] != 0x25);
        } else {
            lemma_escape_value(b[0]);
            assert(bytes[0] as char == '%');
            assert(bytes[1] as char == t[1] && t[1] == head[1]);
            assert(bytes[2] as char == t[2] && t[2] == head[2]);
        }
        assert(unescaped(bytes, 0) =~= seq![b[0]] + rest);
        assert(seq![b[0]] + rest =~= b);
    }
}

/// Undoing escapes gives back every text that was percent-encoded, except that a
/// space, which a query writes as a plus sign, stays one.
pub proof fn law_escaping_is_undone(s: Seq<char>)
    requires
        forall|i: int| 0 <= i < encode_utf8(s).len() ==> #[trigger] encode_utf8(s)[i] != 0x20,
    ensures
        text_of_bytes(
            unescaped(encode_utf8(escaped(Escape::Component, encode_utf8(s))), 0),
        ) == s,
{
    lemma_unescape_escaped(encode_utf8(s));
    encode_utf8_valid_utf8(s);
    encode_utf8_decode_utf8(s);
}

// -------------------------------------------------------------- documents --

/// What follows the last slash.
pub open spec fn last_segment(path: Seq<char>) -> Seq<char> {
    match rfind_from(path, path.len() as int, "/"@) {
        Some(k) => path.subrange(k + 1, path.len() as int),
        None => path,
    }
}

fn segment_after_slash(path: &str) -> (r: String)
    ensures
        r@ == last_segment(path@),
{
    let v = to_chars(path);
    proof {
        reveal_strlit("/");
    }
    match rfind(&v, "/") {
        Some(k) => from_range(&v, k + 1, v.len()),
        None => from_chars(&v),
    }
}

/// The address parses, and its last segment ends in `.pdf`.
pub open spec fn points_at_pdf(url: Option<UrlView>) -> bool {
    url is Some && ends(lower_all(last_segment(url->0.path)), ".pdf"@)
}

/// Does a parsed address point at a PDF, by its path?
pub fn parsed_is_pdf(url: &Option<ParsedUrl>) -> (r: bool)
    ensures
        r == points_at_pdf(
            match *url {
                Some(u) => Some(u@),
                None => None,
            },
        ),
{
    match url {
        Some(u) => {
            let last = segment_after_slash(u.path.as_str());
            let v = to_chars(last.as_str());
            let low = to_ascii_lower(&v);
            ends_with(&low, ".pdf")
        },
        None => false,
    }
}

/// Does this URL point at a PDF, by its path?
pub fn is_pdf_url(url: &str) -> (r: bool)
    ensures
        r == points_at_pdf(url_parts(url@)),
{
    let u = parse_url(url);
    parsed_is_pdf(&u)
}

/// A PDF's name: its file name with escapes undone, or the address itself where
/// it does not parse.
pub open spec fn pdf_name(url: Seq<char>, parsed: Option<UrlView>) -> Seq<char> {
    match parsed {
        Some(u) => text_of_bytes(unescaped(encode_utf8(last_segment(u.path)), 0)),
        None => url,
    }
}

/// A PDF has no title element; the file name is the closest thing.
pub fn pdf_title(url: &str) -> (r: String)
    ensures
        r@ == pdf_name(url@, url_parts(url@)),
{
    match parse_url(url) {
        Some(u) => {
            let last = segment_after_slash(u.path.as_str());
            percent_encoding_recover(last.as_str())
        },
        None => url.to_owned(),
    }
}

// ---------------------------------------------------------------- domain --

/// The text without any leading `www.`.
pub open spec fn without_www(s: Seq<char>) -> Seq<char>
    decreases s.len(),
{
    if starts(s, "www."@) && "www."@.len() > 0 {
        without_www(s.subrange("www."@.len() as int, s.len() as int))
    } else {
        s
    }
}

pub fn strip_www(v: &[char]) -> (r: Vec<char>)
    ensures
        r@ == without_www(v@),
{
    let mut i: usize = 0;
    proof {
        reveal_strlit("www.");
        assert(v@.subrange(0, v@.len() as int) =~= v@);
    }
    while v.len() - i >= 4 && v[i] == 'w' && v[i + 1] == 'w' && v[i + 2] == 'w' && v[i + 3] == '.'
        invariant
            i <= v@.len(),
            without_www(v@.subrange(i as int, v@.len() as int)) == without_www(v@),
        decreases v@.len() - i,
    {
        proof {
            reveal_strlit("www.");
            let rest = v@.subrange(i as int, v@.len() as int);
            assert(rest.subrange(0, 4) =~= "www."@);
            assert(rest.subrange(4, rest.len() as int) =~= v@.subrange(i + 4, v@.len() as int));
        }
        i += 4;
    }
    proof {
        let rest = v@.subrange(i as int, v@.len() as int);
        if starts(rest, "www."@) {
            assert(rest.subrange(0, 4)[0] == v@[i as int]);
            assert(rest.subrange(0, 4)[1] == v@[i + 1]);
            assert(rest.subrange(0, 4)[2] == v@[i + 2]);
            assert(rest.subrange(0, 4)[3] == v@[i + 3]);
        }
    }
    sub_chars(v, i, v.len())
}

/// The host of an address without any leading `www.`; empty where there is none.
pub open spec fn domain_of(url: Option<UrlView>) -> Seq<char> {
    match url {
        Some(u) => match u.host {
            Some(h) => without_www(h),
            None => Seq::empty(),
        },
        None => Seq::empty(),
    }
}

/// The host of a parsed address without any leading `www.`.
pub fn parsed_domain(url: &Option<ParsedUrl>) -> (r: String)
    ensures
        r@ == domain_of(
            match *url {
                Some(u) => Some(u@),
                None => None,
            },
        ),
{
    match url {
        Some(u) => match &u.host {
            Some(h) => {
                let v = to_chars(h.as_str());
                let d = strip_www(&v);
                from_chars(&d)
            },
            None => String::new(),
        },
        None => String::new(),
    }
}

impl Hit {
    /// The host this hit is on, without any leading `www.`.
    pub fn domain(&self) -> (r: String)
        ensures
            r@ == domain_of(url_parts(self.url@)),
    {
        let u = parse_url(self.url.as_str());
        parsed_domain(&u)
    }
}

// -------------------------------------------------------------- identity --

/// A query parameter that identifies a visit rather than a page.
pub open spec fn tracks(key: Seq<char>) -> bool {
    let k = lower_all(key);
    ||| starts(k, "utm_"@)
    ||| starts(k, "ref_"@)
    ||| k == "ref"@
    ||| k == "fbclid"@
    ||| k == "gclid"@
    ||| k == "igshid"@
    ||| k == "si"@
    ||| k == "s"@
    ||| k == "t"@
    ||| k == "feature"@
    ||| k == "lang"@
}

/// Is this parameter noise rather than content identity?
pub fn is_tracking_param(key: &str) -> (r: bool)
    ensures
        r == tracks(key@),
{
    let v = to_chars(key);
    let low = to_ascii_lower(&v);
    if starts_with(&low, "utm_") || starts_with(&low, "ref_") {
        return true;
    }
    let k = from_chars(&low);
    let k = k.as_str();
    str_eq(k, "ref") || str_eq(k, "fbclid") || str_eq(k, "gclid") || str_eq(k, "igshid") || str_eq(
        k,
        "si",
    ) || str_eq(k, "s") || str_eq(k, "t") || str_eq(k, "feature") || str_eq(k, "lang")
}

/// The pairs that select content.
pub open spec fn content_pairs(pairs: Seq<(Seq<char>, Seq<char>)>) -> Seq<(Seq<char>, Seq<char>)>
    decreases pairs.len(),
{
    if pairs.len() == 0 {
        pairs
    } else if tracks(pairs.last().0) {
        content_pairs(pairs.drop_last())
    } else {
        content_pairs(pairs.drop_last()).push(pairs.last())
    }
}

/// A pair as a query writes it in a key: the name alone when the value is empty.
pub open spec fn pair_text(p: (Seq<char>, Seq<char>)) -> Seq<char> {
    if p.1.len() == 0 {
        p.0
    } else {
        p.0 + seq!['='] + p.1
    }
}

pub open spec fn pair_texts(pairs: Seq<(Seq<char>, Seq<char>)>) -> Seq<Seq<char>> {
    Seq::new(pairs.len(), |i: int| pair_text(pairs[i]))
}

/// The path without its trailing slashes.
pub open spec fn without_slashes(s: Seq<char>) -> Seq<char>
    decreases s.len(),
{
    if s.len() > 0 && s.last() == '/' {
        without_slashes(s.drop_last())
    } else {
        s
    }
}

/// The host that tells pages apart: in lower case, without `www.`.
pub open spec fn site(u: UrlView) -> Seq<char> {
    without_www(
        lower_all(
            match u.host {
                Some(h) => h,
                None => Seq::empty(),
            },
        ),
    )
}

/// The identity of a page: host in lower case without `www.`, path without
/// trailing slashes, and the parameters that select content, in order. Scheme
/// and fragment are left out.
pub open spec fn identity(u: UrlView) -> Seq<char> {
    let host = site(u);
    let params = sorted_pairs(content_pairs(u.pairs));
    let base = host + without_slashes(u.path);
    if params.len() == 0 {
        base
    } else {
        base + seq!['?'] + join(pair_texts(params), "&"@)
    }
}

/// The identity of a page by its address; a text that does not parse is its own
/// identity, in lower case.
pub open spec fn canonical(url: Seq<char>) -> Seq<char> {
    match url_parts(trim(url)) {
        Some(u) => identity(u),
        None => lower_all(trim(url)),
    }
}

fn keep_content(pairs: &Vec<(String, String)>) -> (r: Vec<(String, String)>)
    ensures
        pairs_view(r@) == content_pairs(pairs_view(pairs@)),
{
    let mut out: Vec<(String, String)> = Vec::new();
    let mut i: usize = 0;
    assert(pairs_view(out@) =~= content_pairs(pairs_view(pairs@).take(0)));
    while i < pairs.len()
        invariant
            i <= pairs@.len(),
            pairs_view(out@) == content_pairs(pairs_view(pairs@).take(i as int)),
        decreases pairs@.len() - i,
    {
        let ghost before = pairs_view(out@);
        if !is_tracking_param(pairs[i].0.as_str()) {
            out.push((pairs[i].0.clone(), pairs[i].1.clone()));
            assert(pairs_view(out@) =~= before.push(pairs_view(pairs@)[i as int]));
        }
        i += 1;
        assert(pairs_view(pairs@).take(i as int).drop_last() =~= pairs_view(pairs@).take(i - 1));
    }
    assert(pairs_view(pairs@).take(i as int) =~= pairs_view(pairs@));
    out
}

/// The identity of a parsed address.
pub fn canonical_parsed(u: &ParsedUrl) -> (r: String)
    ensures
        r@ == identity(u@),
{
    let host = match &u.host {
        Some(h) => to_chars(h.as_str()),
        None => Vec::new(),
    };
    assert(host@ =~= match u@.host {
        Some(h) => h,
        None => Seq::empty(),
    });
    let low = to_ascii_lower(&host);
    let mut out = strip_www(&low);
    let path = to_chars(u.path.as_str());
    let mut end: usize = path.len();
    assert(path@.take(end as int) =~= path@);
    while end > 0 && path[end - 1] == '/'
        invariant
            end <= path@.len(),
            without_slashes(path@.take(end as int)) == without_slashes(path@),
        decreases end,
    {
        assert(path@.take(end as int).drop_last() =~= path@.take(end - 1));
        end -= 1;
    }
    push_range(&mut out, &path, 0, end);
    assert(path@.subrange(0, end as int) =~= path@.take(end as int));
    let kept = keep_content(&u.pairs);
    let params = sort_pairs(kept);
    let ghost base = out@;
    let ghost all = pairs_view(params@);
    if params.len() > 0 {
        out.push('?');
        let mut i: usize = 0;
        proof {
            reveal_strlit("&");
            assert("&"@ =~= seq!['&']);
            assert(out@ =~= base + seq!['?'] + join(pair_texts(all).take(0), "&"@));
        }
        while i < params.len()
            invariant
                i <= params@.len(),
                all == pairs_view(params@),
                "&"@ == seq!['&'],
                out@ == base + seq!['?'] + join(pair_texts(all).take(i as int), "&"@),
            decreases params@.len() - i,
        {
            let ghost before = out@;
            if i > 0 {
                out.push('&');
            }
            push_str(&mut out, params[i].0.as_str());
            if params[i].1.as_str().unicode_len() > 0 {
                out.push('=');
                push_str(&mut out, params[i].1.as_str());
            }
            proof {
                let texts = pair_texts(all);
                assert(texts.take(i + 1).drop_last() =~= texts.take(i as int));
                assert(texts.take(i + 1).last() == pair_text(all[i as int]));
                assert(out@ =~= before + (if i > 0 {
                    seq!['&']
                } else {
                    Seq::empty()
                }) + pair_text(all[i as int]));
                assert(out@ =~= base + seq!['?'] + join(texts.take(i + 1), "&"@));
            }
            i += 1;
        }
        assert(pair_texts(all).take(i as int) =~= pair_texts(all));
    }
    from_chars(&out)
}

/// A stable identity for a page, for comparing hits from different engines.
pub fn canonical_url(url: &str) -> (r: String)
    ensures
        r@ == canonical(url@),
{
    let raw = trim_str(url);
    match parse_url(raw) {
        Some(u) => canonical_parsed(&u),
        None => {
            let v = to_chars(raw);
            let low = to_ascii_lower(&v);
            from_chars(&low)
        },
    }
}

/// How an address is dressed does not matter: pages of the same site and path whose
/// content parameters are the same, in whatever order, are one page, whatever the
/// scheme, the fragment, a `www.`, trailing slashes and parameters that only track a
/// visit make of the rest.
pub proof fn law_dress_does_not_matter(a: UrlView, b: UrlView)
    requires
        site(a) == site(b),
        without_slashes(a.path) == without_slashes(b.path),
        content_pairs(a.pairs).to_multiset() == content_pairs(b.pairs).to_multiset(),
    ensures
        identity(a) == identity(b),
{
    let x = content_pairs(a.pairs);
    let y = content_pairs(b.pairs);
    law_sorting_orders_the_same_pairs(x);
    law_sorting_orders_the_same_pairs(y);
    lemma_order_is_unique(sorted_pairs(x), sorted_pairs(y));
}

/// A parameter that tracks a visit can come and go, and so can a slash at the end of
/// the path.
pub proof fn law_tracking_does_not_matter(u: UrlView, name: Seq<char>, value: Seq<char>)
    requires
        tracks(name),
    ensures
        identity(UrlView { pairs: u.pairs.push((name, value)), ..u }) == identity(u),
        identity(UrlView { path: u.path.push('/'), ..u }) == identity(u),
{
    let more = u.pairs.push((name, value));
    assert(more.drop_last() =~= u.pairs);
    assert(content_pairs(more) == content_pairs(u.pairs));
    assert(u.path.push('/').drop_last() =~= u.path);
}

// --------------------------------------------------------------- display --

/// Long, and nothing but hexadecimal digits, dashes and underscores: a session
/// token rather than a country or a language.
pub open spec fn is_token(value: Seq<char>) -> bool {
    value.len() >= 16 && forall|i: int|
        0 <= i < value.len() ==> (is_hex_digit(#[trigger] value[i]) || value[i] == '-' || value[i]
            == '_')
}

/// Is this value a session token rather than something that selects content?
pub fn is_session_token(value: &str) -> (r: bool)
    ensures
        r == is_token(value@),
{
    let v = to_chars(value);
    if v.len() < 16 {
        return false;
    }
    let mut i: usize = 0;
    while i < v.len()
        invariant
            i <= v@.len(),
            v@ == value@,
            v@.len() >= 16,
            forall|k: int|
                0 <= k < i ==> (is_hex_digit(#[trigger] v@[k]) || v@[k] == '-' || v@[k] == '_'),
        decreases v@.len() - i,
    {
        if hex_digit(v[i]).is_none() && v[i] != '-' && v[i] != '_' {
            return false;
        }
        i += 1;
    }
    true
}

/// A parameter that is junk in an address a person is meant to click. `code` is
/// junk only in the company of an `error`, or when its value is a token.
pub open spec fn litters(key: Seq<char>, value: Seq<char>, has_error: bool) -> bool {
    let k = lower_all(key);
    ||| starts(k, "utm_"@)
    ||| starts(k, "ref_"@)
    ||| k == "fbclid"@
    ||| k == "gclid"@
    ||| k == "igshid"@
    ||| k == "mc_cid"@
    ||| k == "mc_eid"@
    ||| k == "_ga"@
    ||| k == "ref"@
    ||| k == "error"@
    ||| (k == "code"@ && (has_error || is_token(value)))
}

fn is_litter(key: &str, value: &str, has_error: bool) -> (r: bool)
    ensures
        r == litters(key@, value@, has_error),
{
    let v = to_chars(key);
    let low = to_ascii_lower(&v);
    if starts_with(&low, "utm_") || starts_with(&low, "ref_") {
        return true;
    }
    let k = from_chars(&low);
    let k = k.as_str();
    str_eq(k, "fbclid") || str_eq(k, "gclid") || str_eq(k, "igshid") || str_eq(k, "mc_cid")
        || str_eq(k, "mc_eid") || str_eq(k, "_ga") || str_eq(k, "ref") || str_eq(k, "error") || (
    str_eq(k, "code") && (has_error || is_session_token(value)))
}

/// Some parameter is named `error`.
pub open spec fn reports_error(pairs: Seq<(Seq<char>, Seq<char>)>) -> bool {
    exists|i: int| 0 <= i < pairs.len() && (#[trigger] pairs[i]).0 == "error"@
}

/// The parameters worth showing.
pub open spec fn shown_pairs(
    pairs: Seq<(Seq<char>, Seq<char>)>,
    has_error: bool,
) -> Seq<(Seq<char>, Seq<char>)>
    decreases pairs.len(),
{
    if pairs.len() == 0 {
        pairs
    } else if litters(pairs.last().0, pairs.last().1, has_error) {
        shown_pairs(pairs.drop_last(), has_error)
    } else {
        shown_pairs(pairs.drop_last(), has_error).push(pairs.last())
    }
}

/// A parameter as a form field: the name alone when the value is empty.
pub open spec fn form_field(p: (Seq<char>, Seq<char>)) -> Seq<char> {
    if p.1.len() == 0 {
        escaped(Escape::Form, encode_utf8(p.0))
    } else {
        escaped(Escape::Form, encode_utf8(p.0)) + seq!['='] + escaped(
            Escape::Form,
            encode_utf8(p.1),
        )
    }
}

/// A query with one more field, parted from what stands there already.
pub open spec fn with_field(query: Seq<char>, field: Seq<char>) -> Seq<char> {
    if query.len() == 0 {
        field
    } else {
        query + seq!['&'] + field
    }
}

/// `url::form_urlencoded::Serializer::append_pair` on a query: a separator where
/// something stands there already, the escaped name, an equals sign and the escaped
/// value.
#[verifier::external_body]
fn append_pair(query: String, name: &str, value: &str) -> (r: String)
    ensures
        r@ == with_field(
            query@,
            escaped(Escape::Form, encode_utf8(name@)) + seq!['='] + escaped(
                Escape::Form,
                encode_utf8(value@),
            ),
        ),
{
    url::form_urlencoded::Serializer::new(query).append_pair(name, value).finish()
}

/// `url::form_urlencoded::Serializer::append_key_only` on a query: a separator where
/// something stands there already, and the escaped name.
#[verifier::external_body]
fn append_key(query: String, name: &str) -> (r: String)
    ensures
        r@ == with_field(query@, escaped(Escape::Form, encode_utf8(name@))),
{
    url::form_urlencoded::Serializer::new(query).append_key_only(name).finish()
}

/// The parameters as a query.
pub open spec fn form_query(pairs: Seq<(Seq<char>, Seq<char>)>) -> Seq<char>
    decreases pairs.len(),
{
    if pairs.len() == 0 {
        Seq::empty()
    } else {
        with_field(form_query(pairs.drop_last()), form_field(pairs.last()))
    }
}

/// The query to show: none when no parameter is left.
pub open spec fn shown_query(u: UrlView) -> Option<Seq<char>> {
    let shown = shown_pairs(u.pairs, reports_error(u.pairs));
    if shown.len() == 0 {
        None
    } else {
        Some(form_query(shown))
    }
}

/// The query to show of a parsed address.
pub fn display_query(u: &ParsedUrl) -> (r: Option<String>)
    ensures
        match r {
            Some(q) => shown_query(u@) == Some(q@),
            None => shown_query(u@) is None,
        },
{
    let ghost all = pairs_view(u.pairs@);
    let mut has_error: bool = false;
    let mut i: usize = 0;
    while i < u.pairs.len()
        invariant
            i <= u.pairs@.len(),
            all == pairs_view(u.pairs@),
            has_error == exists|k: int| 0 <= k < i && (#[trigger] all[k]).0 == "error"@,
        decreases u.pairs@.len() - i,
    {
        assert(all[i as int].0 == u.pairs@[i as int].0@);
        if str_eq(u.pairs[i].0.as_str(), "error") {
            has_error = true;
        }
        i += 1;
    }
    assert(has_error == reports_error(all));
    let mut out = String::new();
    let mut any: bool = false;
    i = 0;
    assert(out@ =~= form_query(shown_pairs(all.take(0), has_error)));
    while i < u.pairs.len()
        invariant
            i <= u.pairs@.len(),
            all == pairs_view(u.pairs@),
            any == (shown_pairs(all.take(i as int), has_error).len() > 0),
            out@ == form_query(shown_pairs(all.take(i as int), has_error)),
        decreases u.pairs@.len() - i,
    {
        let ghost shown = shown_pairs(all.take(i as int), has_error);
        let ghost p = all[i as int];
        let key = u.pairs[i].0.as_str();
        let value = u.pairs[i].1.as_str();
        proof {
            assert(all.take(i + 1).drop_last() =~= all.take(i as int));
            assert(all.take(i + 1).last() == p);
        }
        if !is_litter(key, value, has_error) {
            if value.unicode_len() == 0 {
                out = append_key(out, key);
            } else {
                out = append_pair(out, key, value);
            }
            proof {
                assert(shown.push(p).drop_last() =~= shown);
                assert(out@ == form_query(shown.push(p)));
            }
            any = true;
        }
        i += 1;
    }
    assert(all.take(i as int) =~= all);
    if any {
        Some(out)
    } else {
        None
    }
}

/// An address fit to print as a citation: as fetched, with only the parameters
/// that carry no content identity removed. A text that does not parse is shown
/// trimmed.
pub open spec fn displayed(url: Seq<char>) -> Seq<char> {
    match url_parts(trim(url)) {
        Some(u) => match url_with_query(trim(url), shown_query(u)) {
            Some(t) => t,
            None => trim(url),
        },
        None => trim(url),
    }
}

/// The address, and the query that is shown of it, are within the parser's offsets.
pub open spec fn displayable(url: Seq<char>) -> bool {
    &&& url.len() <= URL_LIMIT
    &&& url_parts(trim(url)) matches Some(u) ==> (shown_query(u) matches Some(q) ==> q.len()
        <= URL_LIMIT)
}

/// An address fit to print as a citation.
pub fn display_url(url: &str) -> (r: String)
    requires
        displayable(url@),
    ensures
        r@ == displayed(url@),
{
    let raw = trim_str(url);
    proof {
        crate::scan::lemma_trim_start(url@);
        crate::scan::lemma_trim_end(crate::scan::trim_start(url@));
    }
    match parse_url(raw) {
        Some(u) => {
            let query = display_query(&u);
            let t = match &query {
                Some(q) => set_query(raw, Some(q.as_str())),
                None => set_query(raw, None),
            };
            match t {
                Some(t) => t,
                None => raw.to_owned(),
            }
        },
        None => raw.to_owned(),
    }
}

/// An address fit to print as a citation, of any address: nothing of one that the
/// parser's offsets might not hold.
pub fn try_display_url(url: &str) -> (r: Option<String>)
    ensures
        r is Some <==> displayable(url@),
        r matches Some(t) ==> t@ == displayed(url@),
{
    if url.unicode_len() > URL_LIMIT {
        return None;
    }
    match parse_url(trim_str(url)) {
        Some(u) => match display_query(&u) {
            Some(q) => {
                if q.as_str().unicode_len() > URL_LIMIT {
                    return None;
                }
            },
            None => {},
        },
        None => {},
    }
    Some(display_url(url))
}

// ------------------------------------------------------------- redirects --

/// An address with its scheme: a protocol-relative one is taken as `https`.
pub open spec fn with_scheme(raw: Seq<char>) -> Seq<char> {
    if starts(raw, "//"@) {
        "https:"@ + raw
    } else {
        raw
    }
}

/// The value of the first parameter from `i` on that is named `uddg`.
pub open spec fn wrapped_target(pairs: Seq<(Seq<char>, Seq<char>)>, i: int) -> Option<Seq<char>>
    decreases pairs.len() - i,
{
    if i < 0 || i >= pairs.len() {
        None
    } else if pairs[i].0 == "uddg"@ {
        Some(pairs[i].1)
    } else {
        wrapped_target(pairs, i + 1)
    }
}

/// The search engine's own host, or one below it.
pub open spec fn is_engine(host: Seq<char>) -> bool {
    host == "duckduckgo.com"@ || ends(host, ".duckduckgo.com"@)
}

/// Where an address leads, given what it parses to: a search engine's own
/// wrapper to the target it carries, its other pages to nothing, and anything
/// else to itself.
pub open spec fn destination(url: Seq<char>, parsed: Option<UrlView>) -> Seq<char> {
    match parsed {
        None => Seq::empty(),
        Some(u) => {
            let host = match u.host {
                Some(h) => h,
                None => Seq::empty(),
            };
            if !is_engine(host) {
                url
            } else {
                match wrapped_target(u.pairs, 0) {
                    Some(t) => t,
                    None => Seq::empty(),
                }
            }
        },
    }
}

pub open spec fn unwrapped(raw: Seq<char>) -> Seq<char> {
    if raw.len() == 0 {
        Seq::empty()
    } else {
        destination(with_scheme(raw), url_parts(with_scheme(raw)))
    }
}

/// Where an address leads, given what it parses to.
pub fn redirect_target(url: &str, parsed: &Option<ParsedUrl>) -> (r: String)
    ensures
        r@ == destination(
            url@,
            match *parsed {
                Some(u) => Some(u@),
                None => None,
            },
        ),
{
    match parsed {
        None => String::new(),
        Some(u) => {
            let inside = match &u.host {
                Some(h) => {
                    let v = to_chars(h.as_str());
                    str_eq(h.as_str(), "duckduckgo.com") || ends_with(&v, ".duckduckgo.com")
                },
                None => {
                    proof {
                        reveal_strlit("duckduckgo.com");
                        reveal_strlit(".duckduckgo.com");
                        assert("duckduckgo.com"@.len() == 14 && ".duckduckgo.com"@.len() == 15);
                    }
                    false
                },
            };
            if !inside {
                return url.to_owned();
            }
            let ghost all = pairs_view(u.pairs@);
            let mut i: usize = 0;
            while i < u.pairs.len()
                invariant
                    i <= u.pairs@.len(),
                    all == pairs_view(u.pairs@),
                    wrapped_target(all, i as int) == wrapped_target(all, 0),
                    inside,
                    parsed is Some,
                    u == parsed->0,
                    is_engine(
                        match u@.host {
                            Some(h) => h,
                            None => Seq::empty(),
                        },
                    ),
                decreases u.pairs@.len() - i,
            {
                if str_eq(u.pairs[i].0.as_str(), "uddg") {
                    return u.pairs[i].1.clone();
                }
                i += 1;
            }
            String::new()
        },
    }
}

/// Turn a search engine's wrapped result into its destination. Anything that is
/// not such a wrapper passes through; what does not parse is dropped.
pub fn unwrap_redirect(raw: &str) -> (r: String)
    ensures
        r@ == unwrapped(raw@),
{
    if raw.unicode_len() == 0 {
        return String::new();
    }
    let v = to_chars(raw);
    let normalized = if starts_with(&v, "//") {
        let mut s = "https:".to_owned();
        s.append(raw);
        s
    } else {
        raw.to_owned()
    };
    let u = parse_url(normalized.as_str());
    redirect_target(normalized.as_str(), &u)
}

// ---------------------------------------------------------------- titles --

/// What parts a headline from the site's name.
pub open spec fn separators() -> Seq<Seq<char>> {
    seq![" - "@, " – "@, " — "@, " | "@, " : "@, ": "@, "|"@, " · "@]
}

fn title_separators() -> (r: Vec<&'static str>)
    ensures
        str_views(r@) == separators(),
{
    let r = vec![" - ", " – ", " — ", " | ", " : ", ": ", "|", " · "];
    assert(str_views(r@) =~= separators());
    r
}

/// Where the last `sep` stands, when what follows it is a site's name: something
/// before it, and one to five words after it.
pub open spec fn site_cut(title: Seq<char>, sep: Seq<char>) -> Option<int> {
    match rfind_from(title, title.len() as int, sep) {
        Some(i) => {
            let tail = trim(title.subrange(i + sep.len(), title.len() as int));
            if trim(title.take(i)).len() > 0 && tail.len() > 0 && words(tail).len() <= 5 {
                Some(i)
            } else {
                None
            }
        },
        None => None,
    }
}

/// The rightmost cut that the first `k` separators give.
pub open spec fn best_cut(title: Seq<char>, k: int) -> Option<int>
    decreases k,
{
    if k <= 0 {
        None
    } else {
        match site_cut(title, separators()[k - 1]) {
            Some(i) => match best_cut(title, k - 1) {
                Some(c) => if i > c {
                    Some(i)
                } else {
                    Some(c)
                },
                None => Some(i),
            },
            None => best_cut(title, k - 1),
        }
    }
}

/// The headline without the site's name.
pub open spec fn headline(title: Seq<char>) -> Seq<char> {
    match best_cut(title, separators().len() as int) {
        Some(i) => title.take(i),
        None => title,
    }
}

/// The first eight words of a headline that is in lower case.
pub open spec fn key_of_title(lower: Seq<char>) -> Seq<char> {
    let runs = runs_from(headline(lower), 0);
    join(
        if runs.len() > 8 {
            runs.take(8)
        } else {
            runs
        },
        seq![' '],
    )
}

pub open spec fn title_identity(title: Seq<char>) -> Seq<char> {
    key_of_title(lowercase(trim(title)))
}

fn find_site_cut(title: &[char], sep: &str) -> (r: Option<usize>)
    ensures
        match r {
            Some(i) => site_cut(title@, sep@) == Some(i as int) && i <= title@.len(),
            None => site_cut(title@, sep@) is None,
        },
{
    match rfind(title, sep) {
        Some(i) => {
            let head = sub_chars(title, 0, i);
            assert(head@ =~= title@.take(i as int));
            let n: usize = sep.unicode_len();
            let tail = sub_chars(title, i + n, title.len());
            let tail = trim_chars(&tail);
            let head = trim_chars(&head);
            if head.len() > 0 && tail.len() > 0 {
                let w = split_words(&tail);
                assert(char_views(w@).len() == w@.len());
                if w.len() <= 5 {
                    return Some(i);
                }
            }
            None
        },
        None => None,
    }
}

/// The key of a title that is trimmed and in lower case.
pub fn title_key_lower(lower: &str) -> (r: String)
    ensures
        r@ == key_of_title(lower@),
{
    let v = to_chars(lower);
    let seps = title_separators();
    let mut cut: Option<usize> = None;
    let mut k: usize = 0;
    while k < seps.len()
        invariant
            k <= seps@.len(),
            str_views(seps@) == separators(),
            match cut {
                Some(c) => best_cut(v@, k as int) == Some(c as int) && c <= v@.len(),
                None => best_cut(v@, k as int) is None,
            },
        decreases seps@.len() - k,
    {
        assert(separators()[k as int] == seps@[k as int]@);
        match find_site_cut(&v, seps[k]) {
            Some(i) => {
                cut = match cut {
                    Some(c) => if i > c {
                        Some(i)
                    } else {
                        Some(c)
                    },
                    None => Some(i),
                };
            },
            None => {},
        }
        k += 1;
    }
    let end: usize = match cut {
        Some(c) => c,
        None => v.len(),
    };
    let head = sub_chars(&v, 0, end);
    assert(head@ =~= headline(v@));
    let runs = split_runs(&head);
    let n: usize = if runs.len() > 8 {
        8
    } else {
        runs.len()
    };
    let ghost all = char_views(runs@);
    let mut out: Vec<char> = Vec::new();
    let mut i: usize = 0;
    while i < n
        invariant
            i <= n <= runs@.len(),
            all == char_views(runs@),
            out@ == join(all.take(i as int), seq![' ']),
        decreases n - i,
    {
        let ghost before = out@;
        if i > 0 {
            out.push(' ');
            assert(out@ =~= before + seq![' ']);
        }
        let part = &runs[i];
        push_range(&mut out, part, 0, part.len());
        assert(runs@[i as int]@.subrange(0, runs@[i as int]@.len() as int) =~= runs@[i as int]@);
        i += 1;
        assert(all.take(i as int).drop_last() =~= all.take(i - 1));
    }
    assert(all.take(n as int) =~= (if all.len() > 8 {
        all.take(8)
    } else {
        all
    }));
    from_chars(&out)
}

/// A loose identity for a headline, used to keep one syndicated story from taking
/// several slots.
pub fn title_key(title: &str) -> (r: String)
    ensures
        r@ == title_identity(title@),
{
    let lower = to_lower(trim_str(title));
    title_key_lower(lower.as_str())
}

/// A cut comes from a separator, and none comes from further right.
proof fn lemma_best_cut(title: Seq<char>, k: int)
    requires
        0 <= k <= separators().len(),
    ensures
        match best_cut(title, k) {
            Some(c) => exists|m: int|
                0 <= m < k && #[trigger] site_cut(title, separators()[m]) == Some(c),
            None => true,
        },
        forall|m: int|
            0 <= m < k ==> match #[trigger] site_cut(title, separators()[m]) {
                Some(i) => best_cut(title, k) is Some && i <= best_cut(title, k)->0,
                None => true,
            },
    decreases k,
{
    if k > 0 {
        lemma_best_cut(title, k - 1);
        let last = site_cut(title, separators()[k - 1]);
        match best_cut(title, k - 1) {
            Some(c) => {
                let m = choose|m: int|
                    0 <= m < k - 1 && #[trigger] site_cut(title, separators()[m]) == Some(c);
                assert(site_cut(title, separators()[m]) == Some(c));
            },
            None => {},
        }
    }
}

/// No letter, no digit.
spec fn signs(s: Seq<char>) -> bool {
    forall|i: int|
        0 <= i < s.len() ==> !is_ascii_alnum(#[trigger] s[i])
}

proof fn lemma_separator(k: int)
    requires
        0 <= k < separators().len(),
    ensures
        1 <= separators()[k].len() <= 3,
        signs(separators()[k]),
{
    reveal_strlit(" - ");
    reveal_strlit(" – ");
    reveal_strlit(" — ");
    reveal_strlit(" | ");
    reveal_strlit(" : ");
    reveal_strlit(": ");
    reveal_strlit("|");
    reveal_strlit(" · ");
}

/// A separator stands where it stood before the case was dropped.
proof fn lemma_lower_match(x: Seq<char>, j: int, p: Seq<char>)
    requires
        signs(p),
        match_at(lower_all(x), j, p),
    ensures
        match_at(x, j, p),
{
    let low = lower_all(x);
    assert forall|i: int| 0 <= i < p.len() implies x.subrange(j, j + p.len())[i] == p[i] by {
        assert(low.subrange(j, j + p.len())[i] == low[j + i]);
        assert(low[j + i] == p[i]);
        assert(!is_ascii_alnum(p[i]));
    }
    assert(x.subrange(j, j + p.len()) =~= p);
}

proof fn lemma_part_match(t: Seq<char>, i: int, j: int, m: int, p: Seq<char>)
    requires
        0 <= i <= j <= t.len(),
        match_at(t.subrange(i, j), m, p),
    ensures
        match_at(t, i + m, p),
{
    assert(t.subrange(i, j).subrange(m, m + p.len()) =~= t.subrange(i + m, i + m + p.len()));
}

/// Nothing in the first part of a title, or of a site's name, is a separator.
pub open spec fn unparted(s: Seq<char>) -> bool {
    forall|k: int| 0 <= k < separators().len() ==> !#[trigger] holds(s, separators()[k])
}

/// A part of a text without separators has none, in lower case either.
proof fn lemma_unparted(t: Seq<char>, i: int, j: int)
    requires
        unparted(t),
        0 <= i <= j <= t.len(),
    ensures
        unparted(lower_all(t.subrange(i, j))),
{
    let low = lower_all(t.subrange(i, j));
    assert forall|k: int| 0 <= k < separators().len() implies !#[trigger] holds(
        low,
        separators()[k],
    ) by {
        let p = separators()[k];
        if holds(low, p) {
            let m = choose|m: int| match_at(low, m, p);
            lemma_separator(k);
            lemma_lower_match(t.subrange(i, j), m, p);
            lemma_part_match(t, i, j, m, p);
            assert(holds(t, p));
        }
    }
}

/// A headline in which nothing parts a site's name stays whole.
proof fn lemma_whole_headline(t: Seq<char>)
    requires
        unparted(t),
    ensures
        headline(t) == t,
{
    lemma_best_cut(t, separators().len() as int);
    match best_cut(t, separators().len() as int) {
        Some(c) => {
            let m = choose|m: int|
                0 <= m < separators().len() && #[trigger] site_cut(t, separators()[m]) == Some(c);
            lemma_rfind(t, t.len() as int, separators()[m]);
            assert(holds(t, separators()[m]));
        },
        None => {},
    }
}

/// What is no letter and no digit adds no words behind a text.
proof fn lemma_runs_before_signs(a: Seq<char>, y: Seq<char>, i: int)
    requires
        forall|j: int| 0 <= j < y.len() ==> !is_alnum(#[trigger] y[j]),
        0 <= i <= a.len() + y.len(),
    ensures
        i <= a.len() ==> run_end(a + y, i) == run_end(a, i),
        i <= a.len() ==> runs_from(a + y, i) == runs_from(a, i),
        i > a.len() ==> runs_from(a + y, i) == Seq::<Seq<char>>::empty(),
    decreases a.len() + y.len() - i,
{
    let s = a + y;
    if i < s.len() {
        lemma_runs_before_signs(a, y, i + 1);
        if i < a.len() {
            assert(s[i] == a[i]);
            if is_alnum(a[i]) {
                lemma_run_end(a, i);
                let e = run_end(a, i);
                lemma_runs_before_signs(a, y, e);
                assert(s.subrange(i, e) =~= a.subrange(i, e));
            }
        } else {
            assert(s[i] == y[i - a.len()]);
            if i == a.len() && y.len() == 1 {
                assert(runs_from(s, i + 1) =~= Seq::<Seq<char>>::empty());
            }
        }
    }
}

proof fn lemma_lower_parts(a: Seq<char>, p: Seq<char>, b: Seq<char>)
    requires
        signs(p),
    ensures
        lower_all(a + p + b) == lower_all(a) + p + lower_all(b),
{
    assert forall|i: int| 0 <= i < p.len() implies lower(#[trigger] p[i]) == p[i] by {
        assert(!is_ascii_alnum(p[i]));
    }
    assert(lower_all(a + p + b) =~= lower_all(a) + p + lower_all(b));
}

/// A site's name behind the `k`-th separator: it holds no separator, and makes none
/// with the end of one that is not ASCII.
pub open spec fn names_site(k: int, site: Seq<char>) -> bool {
    &&& unparted(site)
    &&& 1 <= words(site).len() <= 5
    &&& all_ascii(separators()[k]) || unparted(separators()[k].drop_first() + site)
}

/// What stands behind the start of a separator that is not ASCII is no separator.
proof fn lemma_no_later_cut(a: Seq<char>, k: int, b: Seq<char>, m: int, c: int)
    requires
        0 <= k < separators().len(),
        0 <= m < separators().len(),
        unparted(separators()[k].drop_first() + b),
        match_at(a + separators()[k] + b, c, separators()[m]),
    ensures
        c <= a.len(),
{
    let p = separators()[k];
    let q = separators()[m];
    let t = a + p + b;
    lemma_separator(k);
    if c > a.len() {
        let d = p.drop_first() + b;
        let i = c - a.len() - 1;
        assert(d.subrange(i, i + q.len()) =~= t.subrange(c, c + q.len()));
        assert(match_at(d, i, q));
        assert(holds(d, q));
    }
}

/// Of the separators in ASCII only the hyphen's can stand over its own end.
proof fn lemma_overlap(a: Seq<char>, k: int, b: Seq<char>, c: int)
    requires
        0 <= k < separators().len(),
        all_ascii(separators()[k]),
        unparted(b),
        a.len() < c < a.len() + separators()[k].len(),
        match_at(a + separators()[k] + b, c, separators()[k]),
    ensures
        separators()[k].len() == 3,
        c == a.len() + 2,
        b.len() >= 2,
        b[0] == '-',
        b[1] == ' ',
{
    reveal_strlit(" - ");
    reveal_strlit(" – ");
    reveal_strlit(" — ");
    reveal_strlit(" | ");
    reveal_strlit(" : ");
    reveal_strlit(": ");
    reveal_strlit("|");
    reveal_strlit(" · ");
    let p = separators()[k];
    let t = a + p + b;
    let d = c - a.len();
    let m = t.subrange(c, c + p.len());
    assert(m == p);
    assert(m[0] == t[c]);
    assert(t[c] == p[d]);
    assert(k != 1) by {
        assert(separators()[1][1] == '–');
    }
    assert(k != 2) by {
        assert(separators()[2][1] == '—');
    }
    assert(k != 7) by {
        assert(separators()[7][1] == '·');
    }
    assert(p.len() == 3 && d == 2);
    assert(m[1] == t[c + 1] && m[2] == t[c + 2]);
    assert(t[c + 1] == b[0] && t[c + 2] == b[1]);
    if k == 3 {
        assert(b.subrange(0, 1) =~= "|"@);
        assert(match_at(b, 0, separators()[6]));
        assert(holds(b, separators()[6]));
    }
    if k == 4 {
        assert(b.subrange(0, 2) =~= ": "@);
        assert(match_at(b, 0, separators()[5]));
        assert(holds(b, separators()[5]));
    }
}

/// The last place of the separator in front of a site's name, and what it leaves behind it.
proof fn lemma_site_cut(a: Seq<char>, k: int, b: Seq<char>)
    requires
        0 <= k < separators().len(),
        names_site(k, b),
        !blank(a),
        b.len() > 0,
        !is_space(b.last()),
    ensures
        match site_cut(a + separators()[k] + b, separators()[k]) {
            Some(c) => a.len() <= c,
            None => false,
        },
{
    let p = separators()[k];
    let t = a + p + b;
    lemma_separator(k);
    lemma_rfind(t, t.len() as int, p);
    assert(t.subrange(a.len() as int, (a.len() + p.len()) as int) =~= p);
    assert(match_at(t, a.len() as int, p));
    let c = rfind_from(t, t.len() as int, p)->0;
    assert(a.len() <= c);
    if c >= a.len() + p.len() {
        let i = c - a.len() - p.len();
        assert(b.subrange(i, i + p.len()) =~= t.subrange(c, c + p.len()));
        assert(match_at(b, i, p));
        assert(holds(b, p));
    }
    let tail = t.subrange(c + p.len(), t.len() as int);
    if c == a.len() {
        assert(tail =~= b);
    } else {
        if !all_ascii(p) {
            lemma_no_later_cut(a, k, b, k, c);
        }
        lemma_overlap(a, k, b, c);
        assert(tail =~= b.subrange(2, b.len() as int));
        lemma_words_suffix(b.take(2), tail, 0);
        assert(b.take(2) + tail =~= b);
        reveal_with_fuel(word_end, 3);
        assert(word_end(b, 0) == 1);
        assert(words_from(b, 1) == words_from(b, 2));
        assert(words(b).len() == 1 + words_from(b, 1).len());
    }
    assert(tail.len() > 0 && tail.last() == b.last());
    assert(!blank(tail)) by {
        assert(tail[tail.len() - 1] == tail.last());
    }
    lemma_trim_blank(tail);
    lemma_words_trim(tail);
    let head = t.take(c);
    assert(!blank(head)) by {
        let i = choose|i: int| 0 <= i < a.len() && !is_space(#[trigger] a[i]);
        assert(head[i] == a[i]);
    }
    lemma_trim_blank(head);
}

/// What is left of a headline in front of a site's name has the headline's words.
proof fn lemma_cut_runs(a1: Seq<char>, z: Seq<char>, k: int, b: Seq<char>)
    requires
        0 <= k < separators().len(),
        names_site(k, b),
        !blank(a1 + z),
        forall|j: int| 0 <= j < z.len() ==> !is_alnum(#[trigger] z[j]),
        b.len() > 0,
        !is_space(b.last()),
    ensures
        runs_from(headline(a1 + z + separators()[k] + b), 0) == runs_from(a1, 0),
{
    let p = separators()[k];
    lemma_separator(k);
    let a = a1 + z;
    let t = a + p + b;
    lemma_site_cut(a, k, b);
    let n = separators().len() as int;
    lemma_best_cut(t, n);
    assert(site_cut(t, separators()[k]) is Some);
    let c = best_cut(t, n)->0;
    let m = choose|m: int| 0 <= m < n && #[trigger] site_cut(t, separators()[m]) == Some(c);
    let q = separators()[m];
    lemma_rfind(t, t.len() as int, q);
    assert(match_at(t, c, q));
    if c >= a.len() + p.len() {
        let d = c - a.len() - p.len();
        assert(b.subrange(d, d + q.len()) =~= t.subrange(c, c + q.len()));
        assert(match_at(b, d, q));
        assert(holds(b, q));
    }
    if !all_ascii(p) {
        lemma_no_later_cut(a, k, b, m, c);
    }
    let y = z + p.take(c - a.len());
    assert(t.take(c) =~= a1 + y);
    assert forall|j: int| 0 <= j < y.len() implies !is_alnum(#[trigger] y[j]) by {
        if j < z.len() {
            assert(y[j] == z[j]);
        } else {
            assert(y[j] == p[j - z.len()]);
        }
    }
    lemma_runs_before_signs(a1, y, 0);
}

/// A key does not depend on a site's name behind the headline, of titles that are
/// trimmed and in lower case already: the headline is not blank and holds no separator.
pub proof fn law_a_site_name_is_dropped(head: Seq<char>, k: int, site: Seq<char>)
    requires
        0 <= k < separators().len(),
        !blank(head),
        unparted(head),
        names_site(k, site),
        !is_space(site.last()),
    ensures
        key_of_title(head + separators()[k] + site) == key_of_title(head),
{
    let none = Seq::<char>::empty();
    assert(site.len() > 0) by {
        if site.len() == 0 {
            assert(words(site).len() == 0);
        }
    }
    assert(head + none =~= head);
    lemma_cut_runs(head, none, k, site);
    lemma_whole_headline(head);
}

/// A key does not depend on a site's name behind the headline, after any of the ASCII
/// separators: the headline is not blank, the name has one to five words, and neither
/// holds a separator itself.
pub proof fn law_a_site_name_does_not_matter(title: Seq<char>, k: int, site: Seq<char>)
    requires
        0 <= k < separators().len(),
        all_ascii(separators()[k]),
        all_ascii(title),
        all_ascii(site),
        unparted(title),
        unparted(site),
        !blank(title),
        1 <= words(site).len() <= 5,
    ensures
        title_identity(title + separators()[k] + site) == title_identity(title),
{
    let p = separators()[k];
    lemma_separator(k);
    let x = trim_start(title);
    let x1 = trim_end(x);
    let b0 = trim_end(site);
    lemma_trim_start(title);
    lemma_trim_end(x);
    lemma_trim_end(site);
    assert(!blank(site)) by {
        if blank(site) {
            lemma_words_before_blank(Seq::<char>::empty(), site);
            assert(Seq::<char>::empty() + site =~= site);
        }
    }
    lemma_words_trim(site);
    let whole = title + p + site;
    assert(whole =~= title + (p + site));
    lemma_trim_start_add(title, p + site);
    assert(x + (p + site) =~= (x + p) + site);
    lemma_trim_end_add(x + p, site);
    let t0 = x + p + b0;
    assert(trim(whole) == t0);
    let lo = title.len() - x.len();
    let hi = title.len() as int;
    assert(x =~= title.subrange(lo, hi));
    assert(x1 =~= title.subrange(lo, lo + x1.len()));
    assert(b0 =~= site.subrange(0, b0.len() as int));
    assert forall|i: int| 0 <= i < t0.len() implies (#[trigger] t0[i] as u32) < 0x80 by {
        if i < x.len() {
            assert(t0[i] == title[lo + i]);
        } else if i < x.len() + p.len() {
            assert(t0[i] == p[i - x.len()]);
        } else {
            assert(t0[i] == site[i - x.len() - p.len()]);
        }
    }
    assert forall|i: int| 0 <= i < x1.len() implies (#[trigger] x1[i] as u32) < 0x80 by {
        assert(x1[i] == title[lo + i]);
    }
    let a = lower_all(x);
    let a1 = lower_all(x1);
    let b = lower_all(b0);
    lemma_lower_parts(x, p, b0);
    let t = a + p + b;
    assert(lowercase(trim(whole)) == t);
    assert(lowercase(trim(title)) == a1);
    lemma_unparted(title, lo, lo + x1.len());
    lemma_whole_headline(a1);
    assert(!blank(a)) by {
        assert(a[0] == lower(x[0]));
    }
    lemma_unparted(site, 0, b0.len() as int);
    lemma_lower_words(b0, 0);
    assert(words(b).len() == words(b0).len());
    assert(b.last() == lower(b0.last()));
    let z = a.subrange(a1.len() as int, a.len() as int);
    assert(a =~= a1 + z);
    assert forall|j: int| 0 <= j < z.len() implies !is_alnum(#[trigger] z[j]) by {
        assert(is_space(x[x1.len() + j]));
        assert(x[x1.len() + j] == title[lo + x1.len() + j]);
    }
    lemma_cut_runs(a1, z, k, b);
}

/// The key of a title is at most eight words of letters and digits with one space
/// between each two; of a title in ASCII none holds a capital.
pub proof fn law_title_keys_are_short(title: Seq<char>)
    ensures
        exists|parts: Seq<Seq<char>>|
            parts.len() <= 8 && #[trigger] join(parts, seq![' ']) == title_identity(title)
                && forall|i: int|
                0 <= i < parts.len() ==> is_run(#[trigger] parts[i]) && (all_ascii(title)
                    ==> lower_all(parts[i]) == parts[i]),
{
    let low = lowercase(trim(title));
    let head = headline(low);
    let runs = runs_from(head, 0);
    let parts = if runs.len() > 8 {
        runs.take(8)
    } else {
        runs
    };
    lemma_best_cut(low, separators().len() as int);
    match best_cut(low, separators().len() as int) {
        Some(c) => {
            let m = choose|m: int|
                0 <= m < separators().len() && #[trigger] site_cut(low, separators()[m]) == Some(c);
            lemma_rfind(low, low.len() as int, separators()[m]);
        },
        None => {},
    }
    assert forall|i: int| 0 <= i < parts.len() implies is_run(#[trigger] parts[i]) && (all_ascii(
        title,
    ) ==> lower_all(parts[i]) == parts[i]) by {
        lemma_runs(head, 0, i);
        let w = parts[i];
        assert(w == runs[i]);
        if all_ascii(title) {
            let t = trim(title);
            let st = trim_start(title);
            lemma_trim_start(title);
            lemma_trim_end(st);
            assert forall|j: int| 0 <= j < t.len() implies (#[trigger] t[j] as u32) < 0x80 by {
                assert(t[j] == title[title.len() - st.len() + j]);
            }
            assert forall|j: int| 0 <= j < w.len() implies lower(#[trigger] w[j]) == w[j] by {
                assert(head.contains(runs[i][j]));
                let n = choose|n: int| 0 <= n < head.len() && head[n] == w[j];
                assert(head[n] == low[n]);
                assert(low[n] == lower(t[n]));
            }
            assert(lower_all(w) =~= w);
        }
    }
    assert(join(parts, seq![' ']) == title_identity(title));
}

/// The names that click trackers, share buttons and language switches put into an address.
pub open spec fn visit_names() -> Seq<Seq<char>> {
    seq![
        "ref"@,
        "fbclid"@,
        "gclid"@,
        "igshid"@,
        "si"@,
        "s"@,
        "t"@,
        "feature"@,
        "lang"@,
    ]
}

/// A campaign's parameters, those of a referrer and the names that only say how a visitor
/// came make no other page, in any case; every other parameter selects one.
pub proof fn law_content_selects_the_page(u: UrlView, name: Seq<char>, value: Seq<char>)
    requires
        u.pairs.len() == 0,
    ensures
        "utm_"@.is_prefix_of(lower_all(name)) || "ref_"@.is_prefix_of(lower_all(name))
            || visit_names().contains(lower_all(name)) ==> identity(
            UrlView { pairs: seq![(name, value)], ..u },
        ) == identity(u),
        !("utm_"@.is_prefix_of(lower_all(name)) || "ref_"@.is_prefix_of(lower_all(name))
            || visit_names().contains(lower_all(name))) ==> identity(
            UrlView { pairs: seq![(name, value)], ..u },
        ) == identity(u) + seq!['?'] + (if value.len() == 0 {
            name
        } else {
            name + seq!['='] + value
        }),
{
    let k = lower_all(name);
    let all = visit_names();
    assert(all[0] == "ref"@ && all[1] == "fbclid"@ && all[2] == "gclid"@ && all[3] == "igshid"@
        && all[4] == "si"@ && all[5] == "s"@ && all[6] == "t"@ && all[7] == "feature"@ && all[8]
        == "lang"@);
    if "utm_"@.is_prefix_of(k) {
        assert(k.subrange(0, "utm_"@.len() as int) =~= "utm_"@);
    }
    if starts(k, "utm_"@) {
        assert("utm_"@ =~= k.subrange(0, "utm_"@.len() as int));
    }
    if "ref_"@.is_prefix_of(k) {
        assert(k.subrange(0, "ref_"@.len() as int) =~= "ref_"@);
    }
    if starts(k, "ref_"@) {
        assert("ref_"@ =~= k.subrange(0, "ref_"@.len() as int));
    }
    let p = (name, value);
    let one = seq![p];
    assert(one.drop_last() =~= u.pairs);
    assert(content_pairs(u.pairs) == u.pairs);
    assert(content_pairs(one) == (if tracks(name) {
        u.pairs
    } else {
        u.pairs.push(p)
    }));
    assert(u.pairs.push(p) =~= one);
    reveal_with_fuel(sorted_pairs, 2);
    reveal_with_fuel(crate::order::insert_pair, 2);
    assert(sorted_pairs(u.pairs) =~= u.pairs);
    assert(sorted_pairs(one) =~= one);
    assert(pair_texts(one) =~= seq![pair_text(p)]);
    assert(join(pair_texts(one), "&"@) == pair_text(p));
}

/// Pages of one site without parameters are one page only where their paths are the same but
/// for slashes at the end; a `www.` and the case of the host make no other page.
pub proof fn law_paths_tell_pages_apart(a: UrlView, b: UrlView, h: Seq<char>)
    requires
        a.pairs.len() == 0,
        b.pairs.len() == 0,
        a.host == b.host,
    ensures
        identity(a) == identity(b) <==> without_slashes(a.path) == without_slashes(b.path),
        a.path.len() > 0 && a.path.last() != '/' && b.path.len() > 0 && b.path.last() != '/' ==> (
        identity(a) == identity(b) <==> a.path == b.path),
        identity(UrlView { host: Some("www."@ + h), ..a }) == identity(
            UrlView { host: Some(h), ..a },
        ),
        identity(UrlView { host: Some(lower_all(h)), ..a }) == identity(
            UrlView { host: Some(h), ..a },
        ),
        identity(UrlView { text: b.text, ..a }) == identity(a),
{
    assert(content_pairs(a.pairs) == a.pairs);
    assert(content_pairs(b.pairs) == b.pairs);
    assert(sorted_pairs(a.pairs).len() == 0 && sorted_pairs(b.pairs).len() == 0);
    let s = site(a);
    assert(site(b) == s);
    let x = without_slashes(a.path);
    let y = without_slashes(b.path);
    if identity(a) == identity(b) {
        assert(x =~= (s + x).skip(s.len() as int));
        assert(y =~= (s + y).skip(s.len() as int));
    }
    reveal_strlit("www.");
    let w = lower_all("www."@ + h);
    assert(w =~= "www."@ + lower_all(h));
    assert(w.subrange(0, 4) =~= "www."@);
    assert(w.subrange(4, w.len() as int) =~= lower_all(h));
    assert(w.skip(4) =~= lower_all(h));
    assert(lower_all(lower_all(h)) =~= lower_all(h));
}

/// A search engine's own link leads to the page it carries, its other pages lead nowhere, and
/// every other address leads to itself.
pub proof fn law_redirects_lead_to_their_target(url: Seq<char>, u: UrlView, host: Seq<char>, k: int)
    requires
        u.host == Some(host),
    ensures
        (host == "duckduckgo.com"@ || (exists|sub: Seq<char>| host == #[trigger] (sub
            + ".duckduckgo.com"@))) && 0 <= k < u.pairs.len() && u.pairs[k].0 == "uddg"@ && (forall|
            j: int,
        |
            0 <= j < k ==> (#[trigger] u.pairs[j]).0 != "uddg"@) ==> destination(url, Some(u))
            == u.pairs[k].1,
        host == "duckduckgo.com"@ && (forall|j: int|
            0 <= j < u.pairs.len() ==> (#[trigger] u.pairs[j]).0 != "uddg"@) ==> destination(
            url,
            Some(u),
        ).len() == 0,
        host != "duckduckgo.com"@ && (forall|sub: Seq<char>| host != #[trigger] (sub
            + ".duckduckgo.com"@)) ==> destination(url, Some(u)) == url,
{
    let p = ".duckduckgo.com"@;
    if exists|sub: Seq<char>| host == #[trigger] (sub + p) {
        let sub = choose|sub: Seq<char>| host == #[trigger] (sub + p);
        assert(host.subrange(host.len() - p.len(), host.len() as int) =~= p);
        assert(ends(host, p));
    }
    if ends(host, p) {
        let sub = host.take(host.len() - p.len());
        assert(host =~= sub + p);
    }
    lemma_wrapped(u.pairs, 0);
}

proof fn lemma_wrapped(pairs: Seq<(Seq<char>, Seq<char>)>, i: int)
    requires
        0 <= i <= pairs.len(),
    ensures
        forall|k: int|
            i <= k < pairs.len() && (#[trigger] pairs[k]).0 == "uddg"@ && (forall|j: int|
                i <= j < k ==> (#[trigger] pairs[j]).0 != "uddg"@) ==> wrapped_target(pairs, i)
                == Some(pairs[k].1),
        (forall|j: int| i <= j < pairs.len() ==> (#[trigger] pairs[j]).0 != "uddg"@)
            ==> wrapped_target(pairs, i) is None,
    decreases pairs.len() - i,
{
    if i < pairs.len() && pairs[i].0 != "uddg"@ {
        lemma_wrapped(pairs, i + 1);
    }
}

} // verus!
