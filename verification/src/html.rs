//! Markup to readable text.
//!
//! Deliberately not a parser. Everything downstream consumes prose, so the job
//! is to drop markup and keep the words in a sane order.
use vstd::prelude::*;
use vstd::string::*;
use crate::entities::{decode_entities, decoded, law_plain_text_is_unchanged};
use crate::scan::{
    blank, contains, find, find_from, holds, index_from, index_of, lemma_find_from, lemma_trim_blank,
    lemma_trim_end, lemma_trim_start, match_at, matches_at, replace, replace_all, squeeze,
    squeeze_spaces, trim, trim_chars, trim_start,
};
use crate::text::{
    from_chars, is_ascii_alnum, is_ascii_alphanumeric, is_space, lower, lower_all, push_range,
    sub_chars, to_ascii_lower, to_chars,
};

verus! {

// ------------------------------------------------------------ attributes --

/// ASCII white space, as markup has it between attributes.
pub open spec fn is_tag_space(c: char) -> bool {
    c == ' ' || c == '\t' || c == '\n' || c == '\r' || c == '\u{c}'
}

pub fn tag_space(c: char) -> (r: bool)
    ensures
        r == is_tag_space(c),
{
    c == ' ' || c == '\t' || c == '\n' || c == '\r' || c == '\u{c}'
}

/// Where an unquoted attribute value that starts at `i` ends.
pub open spec fn bare_value_end(s: Seq<char>, i: int) -> int
    decreases s.len() - i,
{
    if 0 <= i < s.len() && !is_tag_space(s[i]) && s[i] != '>' {
        bare_value_end(s, i + 1)
    } else {
        i
    }
}

/// The attribute value that starts at `i`: up to the closing quote when it opens
/// with one, else up to white space or the end of the tag.
pub open spec fn value_at(tag: Seq<char>, i: int) -> Option<Seq<char>> {
    if i < tag.len() && (tag[i] == '"' || tag[i] == '\'') {
        match index_from(tag, i + 1, tag[i]) {
            Some(end) => Some(tag.subrange(i + 1, end)),
            None => None,
        }
    } else {
        Some(tag.subrange(i, bare_value_end(tag, i)))
    }
}

/// A character that an attribute's name can hold.
pub open spec fn is_name_char(c: char) -> bool {
    is_ascii_alnum(c) || c == '-' || c == '_' || c == ':' || c == '.'
}

fn name_char(c: char) -> (r: bool)
    ensures
        r == is_name_char(c),
{
    is_ascii_alphanumeric(c) || c == '-' || c == '_' || c == ':' || c == '.'
}

/// The first index from `i` on at which `pattern` stands and does not end a longer name.
pub open spec fn named_from(low: Seq<char>, i: int, pattern: Seq<char>) -> Option<int>
    decreases low.len() + 1 - i,
{
    if i < 0 || i + pattern.len() > low.len() {
        None
    } else if match_at(low, i, pattern) && (i == 0 || !is_name_char(low[i - 1])) {
        Some(i)
    } else {
        named_from(low, i + 1, pattern)
    }
}

/// The value of the attribute whose name and equals sign are `pattern`.
pub open spec fn attribute(tag: Seq<char>, pattern: Seq<char>) -> Option<Seq<char>> {
    match named_from(lower_all(tag), 0, pattern) {
        Some(at) => value_at(tag, at + pattern.len()),
        None => None,
    }
}

/// The value of a named attribute of a tag such as `<a href="/path" class="x">`.
/// `pattern` is the attribute's name with its equals sign, in lower case.
pub fn extract_attr(tag: &[char], pattern: &str) -> (r: Option<Vec<char>>)
    ensures
        match r {
            Some(v) => attribute(tag@, pattern@) == Some(v@),
            None => attribute(tag@, pattern@) is None,
        },
{
    let low = to_ascii_lower(tag);
    let n: usize = pattern.unicode_len();
    if low.len() < n {
        return None;
    }
    let last: usize = low.len() - n;
    let mut at: usize = 0;
    loop
        invariant_except_break
            named_from(low@, at as int, pattern@) == named_from(low@, 0, pattern@),
        invariant
            low@ == lower_all(tag@),
            at <= last,
            last + n == low@.len(),
            n == pattern@.len(),
        ensures
            named_from(low@, 0, pattern@) == Some(at as int),
        decreases last - at,
    {
        if matches_at(&low, at, pattern) && (at == 0 || !name_char(low[at - 1])) {
            break;
        }
        if at == last {
            assert(named_from(low@, at + 1, pattern@) is None);
            return None;
        }
        at += 1;
    }
    let i: usize = at + n;
    if i < tag.len() && (tag[i] == '"' || tag[i] == '\'') {
        return match index_of(tag, i + 1, tag[i]) {
            Some(end) => Some(sub_chars(tag, i + 1, end)),
            None => None,
        };
    }
    let mut end: usize = i;
    while end < tag.len() && !tag_space(tag[end]) && tag[end] != '>'
        invariant
            i <= end <= tag@.len(),
            bare_value_end(tag@, end as int) == bare_value_end(tag@, i as int),
        decreases tag@.len() - end,
    {
        end += 1;
    }
    Some(sub_chars(tag, i, end))
}

/// The first non-empty alternative text of an image from index `i` on.
pub open spec fn image_text(s: Seq<char>, i: int) -> Option<Seq<char>>
    decreases s.len() - i,
    when 0 <= i <= s.len()
    via image_text_moves
{
    match find_from(lower_all(s), i, "<img"@) {
        None => None,
        Some(start) => match index_from(s, start, '>') {
            None => None,
            Some(gt) => {
                let alt = attribute(s.subrange(start, gt + 1), "alt="@);
                if alt is Some && trim(alt->0).len() > 0 {
                    Some(trim(alt->0))
                } else {
                    image_text(s, gt + 1)
                }
            },
        },
    }
}

/// A character found from `i` on stands at or after `i`, inside the text.
pub proof fn lemma_index_bounds(s: Seq<char>, i: int, c: char)
    ensures
        index_from(s, i, c) matches Some(k) ==> i <= k < s.len() && s[k] == c,
    decreases s.len() - i,
{
    if 0 <= i < s.len() && s[i] != c {
        lemma_index_bounds(s, i + 1, c);
    }
}

#[via_fn]
proof fn image_text_moves(s: Seq<char>, i: int) {
    lemma_find_from(lower_all(s), i, "<img"@);
    match find_from(lower_all(s), i, "<img"@) {
        Some(start) => {
            lemma_index_bounds(s, start, '>');
        },
        None => {},
    }
}

/// The first non-empty `alt` of an image inside a piece of markup.
pub fn find_img_alt(v: &[char]) -> (r: Option<Vec<char>>)
    ensures
        match r {
            Some(t) => image_text(v@, 0) == Some(t@),
            None => image_text(v@, 0) is None,
        },
{
    let low = to_ascii_lower(v);
    let mut pos: usize = 0;
    loop
        invariant
            pos <= v@.len(),
            low@ == lower_all(v@),
            image_text(v@, pos as int) == image_text(v@, 0),
        decreases v@.len() - pos,
    {
        let start: usize = match find(&low, pos, "<img") {
            Some(k) => k,
            None => {
                return None;
            },
        };
        let gt: usize = match index_of(v, start, '>') {
            Some(k) => k,
            None => {
                return None;
            },
        };
        let tag = sub_chars(v, start, gt + 1);
        match extract_attr(&tag, "alt=") {
            Some(alt) => {
                let t = trim_chars(&alt);
                if t.len() > 0 {
                    return Some(t);
                }
            },
            None => {},
        }
        pos = gt + 1;
    }
}

// ------------------------------------------------------------ inner text --

/// The text of `s` from index `i` on, outside its tags; an unfinished tag ends it.
pub open spec fn outside_tags(s: Seq<char>, i: int) -> Seq<char>
    decreases s.len() - i,
    when 0 <= i <= s.len()
    via outside_tags_moves
{
    match index_from(s, i, '<') {
        None => s.subrange(i, s.len() as int),
        Some(lt) => match index_from(s, lt, '>') {
            None => s.subrange(i, lt),
            Some(gt) => s.subrange(i, lt) + outside_tags(s, gt + 1),
        },
    }
}

#[via_fn]
proof fn outside_tags_moves(s: Seq<char>, i: int) {
    lemma_index_bounds(s, i, '<');
    match index_from(s, i, '<') {
        Some(lt) => {
            lemma_index_bounds(s, lt, '>');
        },
        None => {},
    }
}

/// All tags of a short piece of markup dropped, and its references decoded.
pub fn strip_inner_text(v: &[char]) -> (r: Vec<char>)
    ensures
        r@ == decoded(outside_tags(v@, 0)),
{
    let mut out: Vec<char> = Vec::new();
    let mut pos: usize = 0;
    assert(out@ + outside_tags(v@, 0) =~= outside_tags(v@, 0));
    loop
        invariant_except_break
            out@ + outside_tags(v@, pos as int) == outside_tags(v@, 0),
        invariant
            pos <= v@.len(),
        ensures
            out@ == outside_tags(v@, 0),
        decreases v@.len() - pos,
    {
        match index_of(v, pos, '<') {
            None => {
                push_range(&mut out, v, pos, v.len());
                break;
            },
            Some(lt) => {
                let ghost before = out@;
                push_range(&mut out, v, pos, lt);
                match index_of(v, lt, '>') {
                    None => {
                        break;
                    },
                    Some(gt) => {
                        proof {
                            assert(before + (v@.subrange(pos as int, lt as int) + outside_tags(
                                v@,
                                gt + 1,
                            )) =~= out@ + outside_tags(v@, gt + 1));
                        }
                        pos = gt + 1;
                    },
                }
            },
        }
    }
    decode_entities(&out)
}

// ------------------------------------------------------------- strip tags --

/// `low` opens exactly this element at index `i`: the name must end at white
/// space, `>` or `/`.
pub open spec fn opens(low: Seq<char>, i: int, tag: Seq<char>) -> bool {
    let after = i + 1 + tag.len();
    &&& 0 <= i < low.len()
    &&& low[i] == '<'
    &&& match_at(low, i + 1, tag)
    &&& after < low.len()
    &&& (is_tag_space(low[after]) || low[after] == '>' || low[after] == '/')
}

/// Does `low` open exactly this element at index `i`?
pub fn opens_element(low: &[char], i: usize, tag: &str) -> (r: bool)
    requires
        i <= low@.len(),
    ensures
        r == opens(low@, i as int, tag@),
{
    if i >= low.len() || low[i] != '<' || !matches_at(low, i + 1, tag) {
        return false;
    }
    let n: usize = tag.unicode_len();
    let after: usize = i + 1 + n;
    after < low.len() && (tag_space(low[after]) || low[after] == '>' || low[after] == '/')
}

/// Elements whose contents are code, not prose.
#[derive(Clone, Copy, PartialEq, Eq, Structural)]
pub enum Code {
    Script,
    Style,
    Noscript,
    Svg,
}

impl Code {
    pub open spec fn name(self) -> Seq<char> {
        match self {
            Code::Script => "script"@,
            Code::Style => "style"@,
            Code::Noscript => "noscript"@,
            Code::Svg => "svg"@,
        }
    }

    pub open spec fn closing(self) -> Seq<char> {
        match self {
            Code::Script => "</script>"@,
            Code::Style => "</style>"@,
            Code::Noscript => "</noscript>"@,
            Code::Svg => "</svg>"@,
        }
    }

    fn close_tag(self) -> (r: &'static str)
        ensures
            r@ == self.closing(),
    {
        match self {
            Code::Script => "</script>",
            Code::Style => "</style>",
            Code::Noscript => "</noscript>",
            Code::Svg => "</svg>",
        }
    }
}

/// The code element that `low` opens at index `i`.
pub open spec fn code_at(low: Seq<char>, i: int) -> Option<Code> {
    if opens(low, i, "script"@) {
        Some(Code::Script)
    } else if opens(low, i, "style"@) {
        Some(Code::Style)
    } else if opens(low, i, "noscript"@) {
        Some(Code::Noscript)
    } else if opens(low, i, "svg"@) {
        Some(Code::Svg)
    } else {
        None
    }
}

fn code_element(low: &[char], i: usize) -> (r: Option<Code>)
    requires
        i <= low@.len(),
    ensures
        r == code_at(low@, i as int),
{
    if opens_element(low, i, "script") {
        Some(Code::Script)
    } else if opens_element(low, i, "style") {
        Some(Code::Style)
    } else if opens_element(low, i, "noscript") {
        Some(Code::Noscript)
    } else if opens_element(low, i, "svg") {
        Some(Code::Svg)
    } else {
        None
    }
}

/// One past the `>` that ends the tag at `i`, or the end of the text.
pub open spec fn open_end(low: Seq<char>, i: int) -> int {
    match index_from(low, i, '>') {
        Some(gt) => gt + 1,
        None => low.len() as int,
    }
}

/// Where reading goes on after the code element `c` that opens at `i`: past its
/// closing tag, or past its opening tag when it has none.
pub open spec fn code_end(low: Seq<char>, i: int, c: Code) -> int {
    match find_from(low, i, c.closing()) {
        Some(end) => end + c.closing().len(),
        None => open_end(low, i),
    }
}

/// The longest structured-data block that is kept, in characters.
pub const MAX_JSON_LD: usize = 2_000;

/// A structured-data block as one compact line: white space collapsed, escaped
/// slashes restored, and bounded.
pub open spec fn json_ld_line(raw: Seq<char>) -> Seq<char> {
    let compact = replace(squeeze(raw), "\\/"@, "/"@);
    if compact.len() > MAX_JSON_LD {
        compact.take(MAX_JSON_LD as int)
    } else {
        compact
    }
}

/// `out` with a structured-data block on a line of its own.
pub open spec fn with_json_ld(out: Seq<char>, raw: Seq<char>) -> Seq<char> {
    if json_ld_line(raw).len() == 0 {
        out
    } else {
        fresh_line(out) + json_ld_line(raw) + seq!['\n']
    }
}

/// `out`, ended with a line break unless it is empty or already ends in one.
pub open spec fn fresh_line(out: Seq<char>) -> Seq<char> {
    if out.len() > 0 && out.last() != '\n' {
        out.push('\n')
    } else {
        out
    }
}

/// Append a structured-data block as one compact, bounded line.
pub fn emit_json_ld(raw: &[char], out: &mut Vec<char>)
    ensures
        final(out)@ == with_json_ld(old(out)@, raw@),
{
    let words = squeeze_spaces(raw);
    let compact = replace_all(&words, "\\/", "/");
    if compact.len() == 0 {
        return;
    }
    let cut: usize = if compact.len() > MAX_JSON_LD {
        MAX_JSON_LD
    } else {
        compact.len()
    };
    if out.len() > 0 && out[out.len() - 1] != '\n' {
        out.push('\n');
    }
    push_range(out, &compact, 0, cut);
    out.push('\n');
    proof {
        assert(compact@.subrange(0, cut as int) =~= json_ld_line(raw@));
        assert(out@ =~= with_json_ld(old(out)@, raw@));
    }
}

/// The block that a code element carries as data: the contents of a structured
/// data script, between its opening tag and its closing one.
pub open spec fn json_ld_of(s: Seq<char>, i: int, c: Code) -> Option<Seq<char>> {
    let low = lower_all(s);
    match find_from(low, i, c.closing()) {
        Some(end) => if c == Code::Script && open_end(low, i) <= end && holds(
            low.subrange(i, open_end(low, i)),
            "ld+json"@,
        ) {
            Some(s.subrange(open_end(low, i), end))
        } else {
            None
        },
        None => None,
    }
}

/// A tag that starts or ends a block, so that a line breaks before it.
pub open spec fn breaks_line(low: Seq<char>, i: int) -> bool {
    ||| match_at(low, i, "<p"@)
    ||| match_at(low, i, "<br"@)
    ||| match_at(low, i, "<div"@)
    ||| match_at(low, i, "<li"@)
    ||| match_at(low, i, "<tr"@)
    ||| match_at(low, i, "<h"@)
    ||| match_at(low, i, "</p"@)
    ||| match_at(low, i, "</div"@)
    ||| match_at(low, i, "</li"@)
    ||| match_at(low, i, "</tr"@)
    ||| match_at(low, i, "</table"@)
    ||| match_at(low, i, "</h"@)
}

fn is_block_tag(low: &[char], i: usize) -> (r: bool)
    requires
        i <= low@.len(),
    ensures
        r == breaks_line(low@, i as int),
{
    matches_at(low, i, "<p") || matches_at(low, i, "<br") || matches_at(low, i, "<div")
        || matches_at(low, i, "<li") || matches_at(low, i, "<tr") || matches_at(low, i, "<h")
        || matches_at(low, i, "</p") || matches_at(low, i, "</div") || matches_at(low, i, "</li")
        || matches_at(low, i, "</tr") || matches_at(low, i, "</table") || matches_at(low, i, "</h")
}

/// An image tag at index `i`.
pub open spec fn is_image(low: Seq<char>, i: int) -> bool {
    &&& match_at(low, i, "<img"@)
    &&& i + 4 < low.len()
    &&& (low[i + 4] == ' ' || low[i + 4] == '\t' || low[i + 4] == '\n' || low[i + 4] == '\r'
        || low[i + 4] == '/' || low[i + 4] == '>')
}

fn image_tag(low: &[char], i: usize) -> (r: bool)
    requires
        i < low@.len(),
    ensures
        r == is_image(low@, i as int),
{
    if low.len() - i <= 4 || !matches_at(low, i, "<img") {
        return false;
    }
    let c = low[i + 4];
    c == ' ' || c == '\t' || c == '\n' || c == '\r' || c == '/' || c == '>'
}

/// `out` with a line break when the tag at `i` starts or ends a block, unless
/// one stands there already.
pub open spec fn with_break(out: Seq<char>, low: Seq<char>, i: int) -> Seq<char> {
    if breaks_line(low, i) && (out.len() == 0 || out.last() != '\n') {
        out.push('\n')
    } else {
        out
    }
}

/// `out` with the alternative text of an image tag, set off by spaces.
pub open spec fn with_alt(out: Seq<char>, tag: Seq<char>) -> Seq<char> {
    match attribute(tag, "alt="@) {
        Some(alt) => if trim(alt).len() == 0 {
            out
        } else {
            let spaced = if out.len() > 0 && out.last() != ' ' && out.last() != '\n' {
                out.push(' ')
            } else {
                out
            };
            spaced + trim(alt) + seq![' ']
        },
        None => out,
    }
}

/// The text of the markup `s` from index `i` on, after the text `out`: code
/// elements dropped (structured data kept as a line), block tags as line breaks,
/// images as their alternative text, every other tag as nothing.
pub open spec fn text_from(s: Seq<char>, i: int, out: Seq<char>) -> Seq<char>
    decreases s.len() - i,
    when 0 <= i <= s.len()
    via text_from_moves
{
    let low = lower_all(s);
    match code_at(low, i) {
        Some(c) => {
            let kept = match json_ld_of(s, i, c) {
                Some(raw) => with_json_ld(out, raw),
                None => out,
            };
            text_from(s, code_end(low, i, c), kept)
        },
        None => match index_from(s, i, '<') {
            None => out + s.subrange(i, s.len() as int),
            Some(lt) => if lt > i {
                text_from(s, lt, out + s.subrange(i, lt))
            } else {
                match index_from(s, i, '>') {
                    None => with_break(out, low, i),
                    Some(gt) => text_from(
                        s,
                        gt + 1,
                        if is_image(low, i) {
                            with_alt(with_break(out, low, i), s.subrange(i, gt + 1))
                        } else {
                            with_break(out, low, i)
                        },
                    ),
                }
            },
        },
    }
}

/// A code element takes at least its own opening bracket.
pub proof fn lemma_code_end(low: Seq<char>, i: int, c: Code)
    requires
        0 <= i < low.len(),
        low[i] == '<',
    ensures
        i < code_end(low, i, c) <= low.len(),
        i < open_end(low, i) <= low.len(),
{
    reveal_strlit("</script>");
    reveal_strlit("</style>");
    reveal_strlit("</noscript>");
    reveal_strlit("</svg>");
    lemma_find_from(low, i, c.closing());
    lemma_index_bounds(low, i, '>');
}

#[via_fn]
proof fn text_from_moves(s: Seq<char>, i: int, out: Seq<char>) {
    let low = lower_all(s);
    match code_at(low, i) {
        Some(c) => {
            lemma_code_end(low, i, c);
        },
        None => {
            lemma_index_bounds(s, i, '<');
            lemma_index_bounds(s, i, '>');
        },
    }
}

/// Strip tags, turning block elements into line breaks.
pub fn strip_tags(v: &[char]) -> (r: Vec<char>)
    ensures
        r@ == text_from(v@, 0, Seq::empty()),
{
    let low = to_ascii_lower(v);
    let mut out: Vec<char> = Vec::new();
    let mut pos: usize = 0;
    loop
        invariant
            pos <= v@.len(),
            low@ == lower_all(v@),
            low@.len() == v@.len(),
            text_from(v@, pos as int, out@) == text_from(v@, 0, Seq::empty()),
        decreases v@.len() - pos,
    {
        match code_element(&low, pos) {
            Some(c) => {
                proof {
                    lemma_code_end(low@, pos as int, c);
                }
                let close = c.close_tag();
                let inner: usize = match index_of(&low, pos, '>') {
                    Some(gt) => gt + 1,
                    None => low.len(),
                };
                match find(&low, pos, close) {
                    Some(end) => {
                        if c == Code::Script && inner <= end {
                            let opening = sub_chars(&low, pos, inner);
                            if contains(&opening, "ld+json") {
                                let block = sub_chars(v, inner, end);
                                emit_json_ld(&block, &mut out);
                            }
                        }
                        let n: usize = close.unicode_len();
                        pos = end + n;
                    },
                    None => {
                        pos = inner;
                    },
                }
            },
            None => match index_of(v, pos, '<') {
                None => {
                    push_range(&mut out, v, pos, v.len());
                    return out;
                },
                Some(lt) => {
                    if lt > pos {
                        push_range(&mut out, v, pos, lt);
                        pos = lt;
                    } else {
                        if is_block_tag(&low, pos) && (out.len() == 0 || out[out.len() - 1]
                            != '\n') {
                            out.push('\n');
                        }
                        match index_of(v, pos, '>') {
                            None => {
                                return out;
                            },
                            Some(gt) => {
                                if image_tag(&low, pos) {
                                    let tag = sub_chars(v, pos, gt + 1);
                                    push_alt(&tag, &mut out);
                                }
                                pos = gt + 1;
                            },
                        }
                    }
                },
            },
        }
    }
}

fn push_alt(tag: &[char], out: &mut Vec<char>)
    ensures
        final(out)@ == with_alt(old(out)@, tag@),
{
    match extract_attr(tag, "alt=") {
        Some(alt) => {
            let t = trim_chars(&alt);
            if t.len() > 0 {
                if out.len() > 0 && out[out.len() - 1] != ' ' && out[out.len() - 1] != '\n' {
                    out.push(' ');
                }
                push_range(out, &t, 0, t.len());
                out.push(' ');
                assert(t@.subrange(0, t@.len() as int) =~= t@);
                assert(out@ =~= with_alt(old(out)@, tag@));
            }
        },
        None => {},
    }
}

// ------------------------------------------------------------------ lines --

/// The lines of `s` from index `i` on, without their line breaks.
pub open spec fn lines_from(s: Seq<char>, i: int) -> Seq<Seq<char>>
    decreases s.len() - i,
    when 0 <= i <= s.len()
    via lines_from_moves
{
    if i == s.len() {
        Seq::empty()
    } else {
        match index_from(s, i, '\n') {
            None => seq![s.subrange(i, s.len() as int)],
            Some(k) => seq![s.subrange(i, k)] + lines_from(s, k + 1),
        }
    }
}

#[via_fn]
proof fn lines_from_moves(s: Seq<char>, i: int) {
    lemma_index_bounds(s, i, '\n');
}

/// The lines from the `k`-th on, each trimmed and ended; a run of blank lines is
/// one line break, and none when a blank line came just before (`after_blank`).
pub open spec fn tidy_from(lines: Seq<Seq<char>>, k: int, after_blank: bool) -> Seq<char>
    decreases lines.len() - k,
{
    if k < 0 || k >= lines.len() {
        Seq::empty()
    } else if trim(lines[k]).len() == 0 {
        (if after_blank {
            Seq::<char>::empty()
        } else {
            seq!['\n']
        }) + tidy_from(lines, k + 1, true)
    } else {
        trim(lines[k]) + seq!['\n'] + tidy_from(lines, k + 1, false)
    }
}

/// The readable text of markup.
pub open spec fn readable(html: Seq<char>) -> Seq<char> {
    tidy_from(lines_from(decoded(text_from(html, 0, Seq::empty())), 0), 0, false)
}

/// Convert HTML to readable text.
pub fn html_to_text(html: &str) -> (r: String)
    ensures
        r@ == readable(html@),
{
    let v = to_chars(html);
    let stripped = strip_tags(&v);
    let text = decode_entities(&stripped);
    let mut out: Vec<char> = Vec::new();
    let mut blank: bool = false;
    let mut pos: usize = 0;
    let ghost lines = lines_from(text@, 0);
    let ghost mut k: int = 0;
    assert(lines.subrange(0, lines.len() as int) =~= lines);
    assert(out@ + tidy_from(lines, 0, false) =~= readable(html@));
    while pos < text.len()
        invariant
            pos <= text@.len(),
            0 <= k <= lines.len(),
            lines == lines_from(text@, 0),
            lines.subrange(k, lines.len() as int) == lines_from(text@, pos as int),
            out@ + tidy_from(lines, k, blank) == readable(html@),
        decreases text@.len() - pos,
    {
        let end: usize = match index_of(&text, pos, '\n') {
            Some(j) => j,
            None => text.len(),
        };
        let line = sub_chars(&text, pos, end);
        let t = trim_chars(&line);
        let ghost rest = lines_from(text@, pos as int);
        proof {
            assert(rest.len() > 0 && rest[0] == line@);
            assert(lines.subrange(k, lines.len() as int)[0] == lines[k]);
        }
        let ghost before = out@;
        let ghost was_blank = blank;
        if t.len() == 0 {
            if !blank {
                out.push('\n');
            }
            blank = true;
            proof {
                assert(before + ((if was_blank {
                    Seq::<char>::empty()
                } else {
                    seq!['\n']
                }) + tidy_from(lines, k + 1, true)) =~= out@ + tidy_from(lines, k + 1, true));
            }
        } else {
            push_range(&mut out, &t, 0, t.len());
            out.push('\n');
            blank = false;
            proof {
                assert(t@.subrange(0, t@.len() as int) =~= t@);
                assert(before + (t@ + seq!['\n'] + tidy_from(lines, k + 1, false)) =~= out@
                    + tidy_from(lines, k + 1, false));
            }
        }
        pos = if end < text.len() {
            end + 1
        } else {
            end
        };
        proof {
            assert(lines.subrange(k + 1, lines.len() as int) =~= rest.drop_first());
            assert(rest.drop_first() =~= lines_from(text@, pos as int));
            k = k + 1;
        }
    }
    assert(lines.subrange(k, lines.len() as int).len() == 0);
    assert(out@ + tidy_from(lines, k, blank) =~= out@);
    from_chars(&out)
}

/// The text of the title element, decoded; nothing without a finished one.
pub open spec fn title_of(html: Seq<char>) -> Seq<char> {
    let low = lower_all(html);
    match find_from(low, 0, "<title"@) {
        None => Seq::empty(),
        Some(a) => match index_from(html, a, '>') {
            None => Seq::empty(),
            Some(gt) => match find_from(low, gt + 1, "</title>"@) {
                None => Seq::empty(),
                Some(b) => decoded(trim(html.subrange(gt + 1, b))),
            },
        },
    }
}

/// The page title that markup declares.
pub fn extract_title(html: &str) -> (r: String)
    ensures
        r@ == title_of(html@),
{
    let v = to_chars(html);
    let low = to_ascii_lower(&v);
    match find(&low, 0, "<title") {
        None => String::new(),
        Some(a) => match index_of(&v, a, '>') {
            None => String::new(),
            Some(gt) => match find(&low, gt + 1, "</title>") {
                None => String::new(),
                Some(b) => {
                    let inner = sub_chars(&v, gt + 1, b);
                    let t = trim_chars(&inner);
                    let d = decode_entities(&t);
                    from_chars(&d)
                },
            },
        },
    }
}

// -------------------------------------------------------------------- laws --

proof fn lemma_index_at(s: Seq<char>, i: int, e: int, c: char)
    requires
        0 <= i <= e <= s.len(),
        forall|k: int| i <= k < e ==> #[trigger] s[k] != c,
        e < s.len() ==> s[e] == c,
    ensures
        index_from(s, i, c) == (if e < s.len() {
            Some(e)
        } else {
            None
        }),
    decreases e - i,
{
    if i < e {
        lemma_index_at(s, i + 1, e, c);
    }
}

proof fn lemma_lower_bracket(c: char)
    ensures
        lower(c) == '<' <==> c == '<',
        lower(c) == '>' <==> c == '>',
        lower(c) == '/' <==> c == '/',
{
}

/// Text up to the next tag is taken over.
proof fn lemma_text_run(s: Seq<char>, i: int, e: int, out: Seq<char>)
    requires
        0 <= i <= e <= s.len(),
        forall|k: int| i <= k < e ==> #[trigger] s[k] != '<',
        e < s.len() ==> s[e] == '<',
    ensures
        e < s.len() ==> text_from(s, i, out) == text_from(s, e, out + s.subrange(i, e)),
        e == s.len() ==> text_from(s, i, out) == out + s.subrange(i, e),
{
    let low = lower_all(s);
    lemma_index_at(s, i, e, '<');
    if i < e {
        lemma_lower_bracket(s[i]);
        assert(low[i] != '<');
        assert(code_at(low, i) is None);
    } else {
        assert(out + s.subrange(i, e) =~= out);
        if i == s.len() {
            assert(code_at(low, i) is None);
        }
    }
}

/// A tag that is neither code nor an image is at most a line break.
proof fn lemma_text_tag(s: Seq<char>, i: int, gt: int, out: Seq<char>)
    requires
        0 <= i < gt < s.len(),
        s[i] == '<',
        s[gt] == '>',
        forall|k: int| i <= k < gt ==> #[trigger] s[k] != '>',
        code_at(lower_all(s), i) is None,
        !is_image(lower_all(s), i),
    ensures
        text_from(s, i, out) == text_from(s, gt + 1, with_break(out, lower_all(s), i)),
{
    lemma_index_at(s, i, i, '<');
    lemma_index_at(s, i, gt, '>');
}

/// `"<" + x + ">"`, the tag with this inside.
pub open spec fn tag_of(x: Seq<char>) -> Seq<char> {
    seq!['<'] + x + seq!['>']
}

/// Text with no tag, no reference and no line break in it.
pub open spec fn plain_line(s: Seq<char>) -> bool {
    !s.contains('<') && !s.contains('&') && !s.contains('\n')
}

/// A pattern that starts with an opening bracket stands at a tag exactly where the rest of
/// it starts what the tag holds.
proof fn lemma_tag_starts(a: Seq<char>, x: Seq<char>, b: Seq<char>, p: Seq<char>)
    requires
        !x.contains('>'),
        p.len() > 1,
        p[0] == '<',
        !p.contains('>'),
    ensures
        match_at(lower_all(a + tag_of(x) + b), a.len() as int, p) <==> p.skip(1).is_prefix_of(
            lower_all(x),
        ),
{
    let low = lower_all(a + tag_of(x) + b);
    let i = a.len() as int;
    let q = p.skip(1);
    assert forall|k: int| 0 <= k < x.len() implies low[i + 1 + k] == #[trigger] lower_all(x)[k] by {}
    assert(low[i] == '<');
    assert(low[i + 1 + x.len()] == '>');
    if match_at(low, i, p) {
        if q.len() > x.len() {
            assert(low.subrange(i, i + p.len())[1 + x.len() as int] == '>');
            assert(p[1 + x.len() as int] == '>');
        }
        assert forall|k: int| 0 <= k < q.len() implies #[trigger] q[k] == lower_all(x)[k] by {
            assert(low.subrange(i, i + p.len())[1 + k] == p[1 + k]);
        }
        assert(lower_all(x).take(q.len() as int) =~= q);
    }
    if q.is_prefix_of(lower_all(x)) {
        assert forall|k: int| 0 <= k < p.len() implies low[i + k] == #[trigger] p[k] by {
            if k > 0 {
                assert(q[k - 1] == lower_all(x)[k - 1]);
            }
        }
        assert(low.subrange(i, i + p.len()) =~= p);
    }
}

/// What a tag holds does not open code, and is no image.
pub open spec fn prose_tag(x: Seq<char>) -> bool {
    let l = lower_all(x);
    &&& !"script"@.is_prefix_of(l)
    &&& !"style"@.is_prefix_of(l)
    &&& !"noscript"@.is_prefix_of(l)
    &&& !"svg"@.is_prefix_of(l)
    &&& !"img"@.is_prefix_of(l)
}

/// The tag with this inside starts or ends a paragraph, a line, a division, a list item, a
/// table or its row, or a heading; its case does not matter.
pub open spec fn block_tag(x: Seq<char>) -> bool {
    let l = lower_all(x);
    ||| "p"@.is_prefix_of(l)
    ||| "br"@.is_prefix_of(l)
    ||| "div"@.is_prefix_of(l)
    ||| "li"@.is_prefix_of(l)
    ||| "tr"@.is_prefix_of(l)
    ||| "h"@.is_prefix_of(l)
    ||| "/p"@.is_prefix_of(l)
    ||| "/div"@.is_prefix_of(l)
    ||| "/li"@.is_prefix_of(l)
    ||| "/tr"@.is_prefix_of(l)
    ||| "/table"@.is_prefix_of(l)
    ||| "/h"@.is_prefix_of(l)
}

proof fn lemma_prose_tag(a: Seq<char>, x: Seq<char>, b: Seq<char>)
    requires
        !x.contains('>'),
        prose_tag(x),
    ensures
        code_at(lower_all(a + tag_of(x) + b), a.len() as int) is None,
        !is_image(lower_all(a + tag_of(x) + b), a.len() as int),
{
    reveal_strlit("script");
    reveal_strlit("style");
    reveal_strlit("noscript");
    reveal_strlit("svg");
    reveal_strlit("img");
    reveal_strlit("<img");
    let low = lower_all(a + tag_of(x) + b);
    let i = a.len() as int;
    assert(low[i] == '<');
    lemma_opens(low, i, a, x, b, "script"@);
    lemma_opens(low, i, a, x, b, "style"@);
    lemma_opens(low, i, a, x, b, "noscript"@);
    lemma_opens(low, i, a, x, b, "svg"@);
    lemma_tag_starts(a, x, b, "<img"@);
    assert("<img"@.skip(1) =~= "img"@);
}

proof fn lemma_opens(
    low: Seq<char>,
    i: int,
    a: Seq<char>,
    x: Seq<char>,
    b: Seq<char>,
    name: Seq<char>,
)
    requires
        low == lower_all(a + tag_of(x) + b),
        i == a.len(),
        !x.contains('>'),
        name.len() > 0,
        !name.contains('>'),
    ensures
        opens(low, i, name) ==> name.is_prefix_of(lower_all(x)),
{
    let p = seq!['<'] + name;
    assert forall|k: int| 0 <= k < p.len() implies p[k] != '>' by {
        if k > 0 {
            assert(p[k] == name[k - 1]);
        }
    }
    lemma_tag_starts(a, x, b, p);
    assert(p.skip(1) =~= name);
    if opens(low, i, name) {
        assert(low.subrange(i, i + p.len()) =~= p) by {
            assert forall|k: int| 0 <= k < p.len() implies low[i + k] == #[trigger] p[k] by {
                if k > 0 {
                    assert(low.subrange(i + 1, i + 1 + name.len())[k - 1] == name[k - 1]);
                }
            }
        }
        assert(match_at(low, i, p));
    }
}

proof fn lemma_breaks(a: Seq<char>, x: Seq<char>, b: Seq<char>)
    requires
        !x.contains('>'),
    ensures
        breaks_line(lower_all(a + tag_of(x) + b), a.len() as int) == block_tag(x),
{
    reveal_strlit("p");
    reveal_strlit("br");
    reveal_strlit("div");
    reveal_strlit("li");
    reveal_strlit("tr");
    reveal_strlit("h");
    reveal_strlit("/p");
    reveal_strlit("/div");
    reveal_strlit("/li");
    reveal_strlit("/tr");
    reveal_strlit("/table");
    reveal_strlit("/h");
    reveal_strlit("<p");
    reveal_strlit("<br");
    reveal_strlit("<div");
    reveal_strlit("<li");
    reveal_strlit("<tr");
    reveal_strlit("<h");
    reveal_strlit("</p");
    reveal_strlit("</div");
    reveal_strlit("</li");
    reveal_strlit("</tr");
    reveal_strlit("</table");
    reveal_strlit("</h");
    assert("<p"@.skip(1) =~= "p"@);
    assert("<br"@.skip(1) =~= "br"@);
    assert("<div"@.skip(1) =~= "div"@);
    assert("<li"@.skip(1) =~= "li"@);
    assert("<tr"@.skip(1) =~= "tr"@);
    assert("<h"@.skip(1) =~= "h"@);
    assert("</p"@.skip(1) =~= "/p"@);
    assert("</div"@.skip(1) =~= "/div"@);
    assert("</li"@.skip(1) =~= "/li"@);
    assert("</tr"@.skip(1) =~= "/tr"@);
    assert("</table"@.skip(1) =~= "/table"@);
    assert("</h"@.skip(1) =~= "/h"@);
    lemma_tag_starts(a, x, b, "<p"@);
    lemma_tag_starts(a, x, b, "<br"@);
    lemma_tag_starts(a, x, b, "<div"@);
    lemma_tag_starts(a, x, b, "<li"@);
    lemma_tag_starts(a, x, b, "<tr"@);
    lemma_tag_starts(a, x, b, "<h"@);
    lemma_tag_starts(a, x, b, "</p"@);
    lemma_tag_starts(a, x, b, "</div"@);
    lemma_tag_starts(a, x, b, "</li"@);
    lemma_tag_starts(a, x, b, "</tr"@);
    lemma_tag_starts(a, x, b, "</table"@);
    lemma_tag_starts(a, x, b, "</h"@);
}

proof fn lemma_block_is_prose(x: Seq<char>)
    requires
        block_tag(x),
    ensures
        prose_tag(x),
{
    reveal_strlit("p");
    reveal_strlit("br");
    reveal_strlit("div");
    reveal_strlit("li");
    reveal_strlit("tr");
    reveal_strlit("h");
    reveal_strlit("/p");
    reveal_strlit("/div");
    reveal_strlit("/li");
    reveal_strlit("/tr");
    reveal_strlit("/table");
    reveal_strlit("/h");
    reveal_strlit("script");
    reveal_strlit("style");
    reveal_strlit("noscript");
    reveal_strlit("svg");
    reveal_strlit("img");
    let l = lower_all(x);
    if "script"@.is_prefix_of(l) {
        assert("script"@[0] == l[0]);
    }
    if "style"@.is_prefix_of(l) {
        assert("style"@[0] == l[0]);
    }
    if "noscript"@.is_prefix_of(l) {
        assert("noscript"@[0] == l[0]);
    }
    if "svg"@.is_prefix_of(l) {
        assert("svg"@[0] == l[0]);
    }
    if "img"@.is_prefix_of(l) {
        assert("img"@[0] == l[0]);
    }
}

/// The text of a tag between two texts: nothing is lost of either, and a block tag puts a
/// line break between them while another puts nothing there.
pub proof fn law_a_block_tag_is_a_line_break(a: Seq<char>, x: Seq<char>, b: Seq<char>)
    requires
        !a.contains('<'),
        !b.contains('<'),
        !x.contains('>'),
        prose_tag(x),
    ensures
        block_tag(x) && (a.len() == 0 || a.last() != '\n') ==> text_from(
            a + tag_of(x) + b,
            0,
            Seq::empty(),
        ) == a + seq!['\n'] + b,
        !block_tag(x) ==> text_from(a + tag_of(x) + b, 0, Seq::empty()) == a + b,
{
    let s = a + tag_of(x) + b;
    let i = a.len() as int;
    let gt = i + 1 + x.len();
    assert forall|k: int| 0 <= k < i implies #[trigger] s[k] != '<' by {
        assert(s[k] == a[k]);
    }
    lemma_text_run(s, 0, i, Seq::empty());
    assert(Seq::<char>::empty() + s.subrange(0, i) =~= a);
    lemma_prose_tag(a, x, b);
    lemma_breaks(a, x, b);
    assert forall|k: int| i <= k < gt implies #[trigger] s[k] != '>' by {
        if k > i {
            assert(s[k] == x[k - i - 1]);
        }
    }
    lemma_text_tag(s, i, gt, a);
    let next = with_break(a, lower_all(s), i);
    assert forall|k: int| gt + 1 <= k < s.len() implies #[trigger] s[k] != '<' by {
        assert(s[k] == b[k - gt - 1]);
    }
    lemma_text_run(s, gt + 1, s.len() as int, next);
    assert(s.subrange(gt + 1, s.len() as int) =~= b);
    assert(next + b =~= (if block_tag(x) && (a.len() == 0 || a.last() != '\n') {
        a + seq!['\n'] + b
    } else {
        a + b
    }));
}

proof fn lemma_one_line(s: Seq<char>)
    requires
        s.len() > 0,
        !s.contains('\n'),
    ensures
        lines_from(s, 0) == seq![s],
{
    assert forall|k: int| 0 <= k < s.len() implies #[trigger] s[k] != '\n' by {
        assert(s.contains(s[k]));
    }
    lemma_index_at(s, 0, s.len() as int, '\n');
    assert(s.subrange(0, s.len() as int) =~= s);
}

proof fn lemma_two_lines(a: Seq<char>, b: Seq<char>)
    requires
        b.len() > 0,
        !a.contains('\n'),
        !b.contains('\n'),
    ensures
        lines_from(a + seq!['\n'] + b, 0) == seq![a, b],
{
    let s = a + seq!['\n'] + b;
    let i = a.len() as int;
    assert forall|k: int| 0 <= k < i implies #[trigger] s[k] != '\n' by {
        assert(s[k] == a[k]);
    }
    lemma_index_at(s, 0, i, '\n');
    assert forall|k: int| i + 1 <= k < s.len() implies #[trigger] s[k] != '\n' by {
        assert(s[k] == b[k - i - 1]);
    }
    lemma_index_at(s, i + 1, s.len() as int, '\n');
    assert(s.subrange(i + 1, s.len() as int) =~= b);
    assert(s.subrange(0, i) =~= a);
    assert(lines_from(s, i + 1) =~= seq![b]);
    assert(lines_from(s, 0) =~= seq![a] + seq![b]);
    assert(seq![a] + seq![b] =~= seq![a, b]);
}

/// Words that a block tag parts stand on lines of their own, and words that any other tag
/// parts stay together: no word is lost, and none is joined that a block parts.
pub proof fn law_block_tags_part_lines(a: Seq<char>, x: Seq<char>, b: Seq<char>)
    requires
        plain_line(a),
        plain_line(b),
        !x.contains('>'),
        prose_tag(x),
        !blank(b),
    ensures
        block_tag(x) && !blank(a) ==> readable(a + tag_of(x) + b) == trim(a) + seq!['\n'] + trim(b)
            + seq!['\n'],
        block_tag(x) && blank(a) ==> readable(a + tag_of(x) + b) == seq!['\n'] + trim(b)
            + seq!['\n'],
        !block_tag(x) ==> readable(a + tag_of(x) + b) == trim(a + b) + seq!['\n'],
{
    law_a_block_tag_is_a_line_break(a, x, b);
    lemma_trim_blank(a);
    lemma_trim_blank(b);
    lemma_trim_blank(a + b);
    if a.len() > 0 {
        assert(a.contains(a.last()));
    }
    if block_tag(x) {
        let t = a + seq!['\n'] + b;
        assert(!t.contains('&')) by {
            if t.contains('&') {
                let k = t.index_of('&');
                if k < a.len() {
                    assert(a[k] == '&');
                } else if k > a.len() {
                    assert(b[k - a.len() - 1] == '&');
                }
            }
        }
        law_plain_text_is_unchanged(t);
        lemma_two_lines(a, b);
        let lines = seq![a, b];
        reveal_with_fuel(tidy_from, 3);
        assert(lines[0] == a && lines[1] == b);
        if blank(a) {
            assert(tidy_from(lines, 0, false) =~= seq!['\n'] + trim(b) + seq!['\n']);
        } else {
            assert(tidy_from(lines, 0, false) =~= trim(a) + seq!['\n'] + trim(b) + seq!['\n']);
        }
    } else {
        let t = a + b;
        assert forall|k: int| 0 <= k < t.len() implies t[k] != '&' && t[k] != '\n' by {
            if k < a.len() {
                assert(a.contains(a[k]));
            } else {
                assert(b.contains(b[k - a.len()]));
            }
        }
        law_plain_text_is_unchanged(t);
        assert(t.len() > 0);
        lemma_one_line(t);
        let k = choose|k: int| 0 <= k < b.len() && !is_space(#[trigger] b[k]);
        assert(!is_space(t[a.len() + k]));
        let lines = seq![t];
        reveal_with_fuel(tidy_from, 2);
        assert(lines[0] == t);
        assert(tidy_from(lines, 0, false) =~= trim(t) + seq!['\n']);
    }
}

/// Whatever stands before and behind the tag of a paragraph, a line break, a division, a list
/// item, a table row or a heading stands on lines of its own.
pub proof fn law_items_stand_on_their_own_lines(a: Seq<char>, name: Seq<char>, b: Seq<char>)
    requires
        plain_line(a),
        plain_line(b),
        !blank(a),
        !blank(b),
        seq![
            "p"@,
            "br"@,
            "div"@,
            "li"@,
            "tr"@,
            "h1"@,
            "h2"@,
            "h3"@,
            "h4"@,
            "h5"@,
            "h6"@,
            "/p"@,
            "/div"@,
            "/li"@,
            "/tr"@,
            "/table"@,
            "/h1"@,
            "/h2"@,
            "/h3"@,
            "/h4"@,
            "/h5"@,
            "/h6"@,
        ].contains(name),
    ensures
        readable(a + seq!['<'] + name + seq!['>'] + b) == trim(a) + seq!['\n'] + trim(b) + seq![
            '\n',
        ],
{
    let all = seq![
        "p"@,
        "br"@,
        "div"@,
        "li"@,
        "tr"@,
        "h1"@,
        "h2"@,
        "h3"@,
        "h4"@,
        "h5"@,
        "h6"@,
        "/p"@,
        "/div"@,
        "/li"@,
        "/tr"@,
        "/table"@,
        "/h1"@,
        "/h2"@,
        "/h3"@,
        "/h4"@,
        "/h5"@,
        "/h6"@,
    ];
    let k = all.index_of(name);
    assert(all[k] == name);
    if k == 0 {
        lemma_names_block_0();
    } else if k == 1 {
        lemma_names_block_1();
    } else if k == 2 {
        lemma_names_block_2();
    } else if k == 3 {
        lemma_names_block_3();
    } else if k == 4 {
        lemma_names_block_4();
    } else if k == 5 {
        lemma_names_block_5();
    } else if k == 6 {
        lemma_names_block_6();
    } else if k == 7 {
        lemma_names_block_7();
    } else if k == 8 {
        lemma_names_block_8();
    } else if k == 9 {
        lemma_names_block_9();
    } else if k == 10 {
        lemma_names_block_10();
    } else if k == 11 {
        lemma_names_block_11();
    } else if k == 12 {
        lemma_names_block_12();
    } else if k == 13 {
        lemma_names_block_13();
    } else if k == 14 {
        lemma_names_block_14();
    } else if k == 15 {
        lemma_names_block_15();
    } else if k == 16 {
        lemma_names_block_16();
    } else if k == 17 {
        lemma_names_block_17();
    } else if k == 18 {
        lemma_names_block_18();
    } else if k == 19 {
        lemma_names_block_19();
    } else if k == 20 {
        lemma_names_block_20();
    } else if k == 21 {
        lemma_names_block_21();
    }
    lemma_block_is_prose(name);
    law_block_tags_part_lines(a, name, b);
    assert(a + tag_of(name) + b =~= a + seq!['<'] + name + seq!['>'] + b);
}

proof fn lemma_names_block_0()
    ensures
        block_tag("p"@),
        !"p"@.contains('>'),
{
    reveal_strlit("p");
    assert(lower_all("p"@) =~= "p"@);
    assert("p"@ =~= "p"@.subrange(0, 1));
    assert("p"@.is_prefix_of(lower_all("p"@)));
}

proof fn lemma_names_block_1()
    ensures
        block_tag("br"@),
        !"br"@.contains('>'),
{
    reveal_strlit("br");
    assert(lower_all("br"@) =~= "br"@);
    assert("br"@ =~= "br"@.subrange(0, 2));
    assert("br"@.is_prefix_of(lower_all("br"@)));
}

proof fn lemma_names_block_2()
    ensures
        block_tag("div"@),
        !"div"@.contains('>'),
{
    reveal_strlit("div");
    assert(lower_all("div"@) =~= "div"@);
    assert("div"@ =~= "div"@.subrange(0, 3));
    assert("div"@.is_prefix_of(lower_all("div"@)));
}

proof fn lemma_names_block_3()
    ensures
        block_tag("li"@),
        !"li"@.contains('>'),
{
    reveal_strlit("li");
    assert(lower_all("li"@) =~= "li"@);
    assert("li"@ =~= "li"@.subrange(0, 2));
    assert("li"@.is_prefix_of(lower_all("li"@)));
}

proof fn lemma_names_block_4()
    ensures
        block_tag("tr"@),
        !"tr"@.contains('>'),
{
    reveal_strlit("tr");
    assert(lower_all("tr"@) =~= "tr"@);
    assert("tr"@ =~= "tr"@.subrange(0, 2));
    assert("tr"@.is_prefix_of(lower_all("tr"@)));
}

proof fn lemma_names_block_5()
    ensures
        block_tag("h1"@),
        !"h1"@.contains('>'),
{
    reveal_strlit("h1");
    reveal_strlit("h");
    assert(lower_all("h1"@) =~= "h1"@);
    assert("h"@ =~= "h1"@.subrange(0, 1));
    assert("h"@.is_prefix_of(lower_all("h1"@)));
}

proof fn lemma_names_block_6()
    ensures
        block_tag("h2"@),
        !"h2"@.contains('>'),
{
    reveal_strlit("h2");
    reveal_strlit("h");
    assert(lower_all("h2"@) =~= "h2"@);
    assert("h"@ =~= "h2"@.subrange(0, 1));
    assert("h"@.is_prefix_of(lower_all("h2"@)));
}

proof fn lemma_names_block_7()
    ensures
        block_tag("h3"@),
        !"h3"@.contains('>'),
{
    reveal_strlit("h3");
    reveal_strlit("h");
    assert(lower_all("h3"@) =~= "h3"@);
    assert("h"@ =~= "h3"@.subrange(0, 1));
    assert("h"@.is_prefix_of(lower_all("h3"@)));
}

proof fn lemma_names_block_8()
    ensures
        block_tag("h4"@),
        !"h4"@.contains('>'),
{
    reveal_strlit("h4");
    reveal_strlit("h");
    assert(lower_all("h4"@) =~= "h4"@);
    assert("h"@ =~= "h4"@.subrange(0, 1));
    assert("h"@.is_prefix_of(lower_all("h4"@)));
}

proof fn lemma_names_block_9()
    ensures
        block_tag("h5"@),
        !"h5"@.contains('>'),
{
    reveal_strlit("h5");
    reveal_strlit("h");
    assert(lower_all("h5"@) =~= "h5"@);
    assert("h"@ =~= "h5"@.subrange(0, 1));
    assert("h"@.is_prefix_of(lower_all("h5"@)));
}

proof fn lemma_names_block_10()
    ensures
        block_tag("h6"@),
        !"h6"@.contains('>'),
{
    reveal_strlit("h6");
    reveal_strlit("h");
    assert(lower_all("h6"@) =~= "h6"@);
    assert("h"@ =~= "h6"@.subrange(0, 1));
    assert("h"@.is_prefix_of(lower_all("h6"@)));
}

proof fn lemma_names_block_11()
    ensures
        block_tag("/p"@),
        !"/p"@.contains('>'),
{
    reveal_strlit("/p");
    assert(lower_all("/p"@) =~= "/p"@);
    assert("/p"@ =~= "/p"@.subrange(0, 2));
    assert("/p"@.is_prefix_of(lower_all("/p"@)));
}

proof fn lemma_names_block_12()
    ensures
        block_tag("/div"@),
        !"/div"@.contains('>'),
{
    reveal_strlit("/div");
    assert(lower_all("/div"@) =~= "/div"@);
    assert("/div"@ =~= "/div"@.subrange(0, 4));
    assert("/div"@.is_prefix_of(lower_all("/div"@)));
}

proof fn lemma_names_block_13()
    ensures
        block_tag("/li"@),
        !"/li"@.contains('>'),
{
    reveal_strlit("/li");
    assert(lower_all("/li"@) =~= "/li"@);
    assert("/li"@ =~= "/li"@.subrange(0, 3));
    assert("/li"@.is_prefix_of(lower_all("/li"@)));
}

proof fn lemma_names_block_14()
    ensures
        block_tag("/tr"@),
        !"/tr"@.contains('>'),
{
    reveal_strlit("/tr");
    assert(lower_all("/tr"@) =~= "/tr"@);
    assert("/tr"@ =~= "/tr"@.subrange(0, 3));
    assert("/tr"@.is_prefix_of(lower_all("/tr"@)));
}

proof fn lemma_names_block_15()
    ensures
        block_tag("/table"@),
        !"/table"@.contains('>'),
{
    reveal_strlit("/table");
    assert(lower_all("/table"@) =~= "/table"@);
    assert("/table"@ =~= "/table"@.subrange(0, 6));
    assert("/table"@.is_prefix_of(lower_all("/table"@)));
}

proof fn lemma_names_block_16()
    ensures
        block_tag("/h1"@),
        !"/h1"@.contains('>'),
{
    reveal_strlit("/h1");
    reveal_strlit("/h");
    assert(lower_all("/h1"@) =~= "/h1"@);
    assert("/h"@ =~= "/h1"@.subrange(0, 2));
    assert("/h"@.is_prefix_of(lower_all("/h1"@)));
}

proof fn lemma_names_block_17()
    ensures
        block_tag("/h2"@),
        !"/h2"@.contains('>'),
{
    reveal_strlit("/h2");
    reveal_strlit("/h");
    assert(lower_all("/h2"@) =~= "/h2"@);
    assert("/h"@ =~= "/h2"@.subrange(0, 2));
    assert("/h"@.is_prefix_of(lower_all("/h2"@)));
}

proof fn lemma_names_block_18()
    ensures
        block_tag("/h3"@),
        !"/h3"@.contains('>'),
{
    reveal_strlit("/h3");
    reveal_strlit("/h");
    assert(lower_all("/h3"@) =~= "/h3"@);
    assert("/h"@ =~= "/h3"@.subrange(0, 2));
    assert("/h"@.is_prefix_of(lower_all("/h3"@)));
}

proof fn lemma_names_block_19()
    ensures
        block_tag("/h4"@),
        !"/h4"@.contains('>'),
{
    reveal_strlit("/h4");
    reveal_strlit("/h");
    assert(lower_all("/h4"@) =~= "/h4"@);
    assert("/h"@ =~= "/h4"@.subrange(0, 2));
    assert("/h"@.is_prefix_of(lower_all("/h4"@)));
}

proof fn lemma_names_block_20()
    ensures
        block_tag("/h5"@),
        !"/h5"@.contains('>'),
{
    reveal_strlit("/h5");
    reveal_strlit("/h");
    assert(lower_all("/h5"@) =~= "/h5"@);
    assert("/h"@ =~= "/h5"@.subrange(0, 2));
    assert("/h"@.is_prefix_of(lower_all("/h5"@)));
}

proof fn lemma_names_block_21()
    ensures
        block_tag("/h6"@),
        !"/h6"@.contains('>'),
{
    reveal_strlit("/h6");
    reveal_strlit("/h");
    assert(lower_all("/h6"@) =~= "/h6"@);
    assert("/h"@ =~= "/h6"@.subrange(0, 2));
    assert("/h"@.is_prefix_of(lower_all("/h6"@)));
}

proof fn lemma_find_at(s: Seq<char>, i: int, e: int, p: Seq<char>)
    requires
        0 <= i <= e,
        match_at(s, e, p),
        forall|j: int| i <= j < e ==> !#[trigger] match_at(s, j, p),
    ensures
        find_from(s, i, p) == Some(e),
    decreases e - i,
{
    if i < e {
        assert(!match_at(s, i, p));
        lemma_find_at(s, i + 1, e, p);
    }
}

proof fn lemma_plain_script(l: Seq<char>)
    requires
        !holds(l, "ld+json"@),
    ensures
        !holds("<script"@ + l + ">"@, "ld+json"@),
{
    reveal_strlit("ld+json");
    reveal_strlit("<script");
    reveal_strlit(">");
    let p = "ld+json"@;
    let head = "<script"@ + l + ">"@;
    if holds(head, p) {
        let j = choose|j: int| match_at(head, j, p);
        assert forall|k: int| 0 <= k < 7 implies head[j + k] == #[trigger] p[k] by {
            assert(head.subrange(j, j + 7)[k] == head[j + k]);
        }
        assert(p[0] == 'l' && p[6] == 'n');
        if j < 7 {
            assert(head[j] == "<script"@[j]);
        } else if j + 7 > 7 + l.len() {
            assert(head[j + 6] == '>');
        } else {
            assert(l.subrange(j - 7, j) =~= p);
            assert(match_at(l, j - 7, p));
        }
    }
}

/// The texts before and behind a code element run together, and nothing of the code is
/// text; only structured data is kept, on a line of its own.
#[verifier::rlimit(50)]
pub proof fn law_code_is_not_text(a: Seq<char>, c: Code, x: Seq<char>, code: Seq<char>, b: Seq<char>)
    requires
        !a.contains('<'),
        !b.contains('<'),
        !x.contains('<'),
        !x.contains('>'),
        x.len() > 0 ==> x[0] == ' ',
        !code.contains('<'),
    ensures
        c != Code::Script || !holds(lower_all(x), "ld+json"@) ==> text_from(
            a + seq!['<'] + c.name() + x + seq!['>'] + code + c.closing() + b,
            0,
            Seq::empty(),
        ) == a + b,
{
    reveal_strlit("script");
    reveal_strlit("style");
    reveal_strlit("noscript");
    reveal_strlit("svg");
    reveal_strlit("</script>");
    reveal_strlit("</style>");
    reveal_strlit("</noscript>");
    reveal_strlit("</svg>");
    reveal_strlit("<script");
    reveal_strlit(">");
    if c != Code::Script || !holds(lower_all(x), "ld+json"@) {
        let name = c.name();
        let close = c.closing();
        let s = a + seq!['<'] + name + x + seq!['>'] + code + close + b;
        let low = lower_all(s);
        let i = a.len() as int;
        let gt = i + 1 + name.len() + x.len();
        let e = gt + 1 + code.len();
        assert forall|k: int| 0 <= k < i implies #[trigger] s[k] != '<' by {
            assert(s[k] == a[k]);
        }
        assert(s[i] == '<');
        lemma_text_run(s, 0, i, Seq::empty());
        assert(Seq::<char>::empty() + s.subrange(0, i) =~= a);
        assert forall|k: int| 0 <= k < name.len() implies low[i + 1 + k] == #[trigger] name[k] by {
            assert(s[i + 1 + k] == name[k]);
        }
        assert(low.subrange(i + 1, i + 1 + name.len()) =~= name);
        assert(s[gt] == '>');
        assert(low[i + 1 + name.len()] == (if x.len() > 0 {
            ' '
        } else {
            '>'
        })) by {
            if x.len() > 0 {
                assert(s[i + 1 + name.len()] == x[0]);
            }
        }
        assert(opens(low, i, name));
        assert(code_at(low, i) == Some(c)) by {
            assert(low[i + 1] == name[0] && low[i + 2] == name[1]);
            if opens(low, i, "script"@) {
                assert(low.subrange(i + 1, i + 7)[0] == 's' && low.subrange(i + 1, i + 7)[1] == 'c');
            }
            if opens(low, i, "style"@) {
                assert(low.subrange(i + 1, i + 6)[0] == 's' && low.subrange(i + 1, i + 6)[1] == 't');
            }
            if opens(low, i, "noscript"@) {
                assert(low.subrange(i + 1, i + 9)[0] == 'n');
            }
            if opens(low, i, "svg"@) {
                assert(low.subrange(i + 1, i + 4)[0] == 's' && low.subrange(i + 1, i + 4)[1] == 'v');
            }
        }
        assert forall|k: int| 0 <= k < close.len() implies low[e + k] == #[trigger] close[k] by {
            assert(s[e + k] == close[k]);
        }
        assert(low.subrange(e, e + close.len()) =~= close);
        assert(match_at(low, e, close));
        assert forall|j: int| i <= j < e implies !#[trigger] match_at(low, j, close) by {
            if match_at(low, j, close) {
                assert(low.subrange(j, j + close.len())[0] == '<');
                assert(low.subrange(j, j + close.len())[1] == '/');
                lemma_lower_bracket(s[j]);
                if j == i {
                    assert(low[i + 1] == name[0]);
                } else if j <= i + name.len() {
                    assert(s[j] == name[j - i - 1]);
                } else if j < gt {
                    assert(s[j] == x[j - i - 1 - name.len()]);
                } else if j > gt {
                    assert(s[j] == code[j - gt - 1]);
                }
            }
        }
        lemma_find_at(low, i, e, close);
        assert forall|k: int| i <= k < gt implies #[trigger] low[k] != '>' by {
            lemma_lower_bracket(s[k]);
            if k > i + name.len() {
                assert(s[k] == x[k - i - 1 - name.len()]);
            } else if k > i {
                assert(s[k] == name[k - i - 1]);
            }
        }
        lemma_index_at(low, i, gt, '>');
        assert(open_end(low, i) == gt + 1);
        if c == Code::Script {
            lemma_plain_script(lower_all(x));
            assert(low.subrange(i, gt + 1) =~= "<script"@ + lower_all(x) + ">"@) by {
                assert forall|k: int| 0 <= k < x.len() implies low[i + 7 + k] == #[trigger] lower_all(
                    x,
                )[k] by {
                    assert(s[i + 7 + k] == x[k]);
                }
            }
        }
        assert(json_ld_of(s, i, c) is None);
        let after = e + close.len();
        assert(code_end(low, i, c) == after);
        assert forall|k: int| after <= k < s.len() implies #[trigger] s[k] != '<' by {
            assert(s[k] == b[k - after]);
        }
        lemma_text_run(s, after, s.len() as int, a);
        assert(s.subrange(after, s.len() as int) =~= b);
    }
}

proof fn lemma_find_title(s: Seq<char>, i: int, e: int, p: Seq<char>)
    requires
        0 <= i <= e,
        p.len() > 0,
        p[0] == '<',
        match_at(lower_all(s), e, p),
        forall|k: int| i <= k < e ==> #[trigger] s[k] != '<',
    ensures
        find_from(lower_all(s), i, p) == Some(e),
{
    let low = lower_all(s);
    assert forall|j: int| i <= j < e implies !#[trigger] match_at(low, j, p) by {
        if match_at(low, j, p) {
            assert(low.subrange(j, j + p.len())[0] == low[j]);
            lemma_lower_bracket(s[j]);
        }
    }
    lemma_find_at(low, i, e, p);
}

/// The title of a page is what stands between its title tags, without the white space
/// around it.
pub proof fn law_the_title_stands_between_its_tags(
    a: Seq<char>,
    x: Seq<char>,
    title: Seq<char>,
    b: Seq<char>,
)
    requires
        !a.contains('<'),
        !x.contains('<'),
        !x.contains('>'),
        !title.contains('<'),
        !title.contains('&'),
    ensures
        title_of(a + "<title"@ + x + ">"@ + title + "</title>"@ + b) == trim(title),
{
    reveal_strlit("<title");
    reveal_strlit("</title>");
    reveal_strlit(">");
    let s = a + "<title"@ + x + ">"@ + title + "</title>"@ + b;
    let low = lower_all(s);
    let i = a.len() as int;
    let gt = i + 6 + x.len();
    let e = gt + 1 + title.len();
    assert forall|k: int| 0 <= k < i implies #[trigger] s[k] != '<' by {
        assert(s[k] == a[k]);
    }
    assert(low.subrange(i, i + 6) =~= "<title"@) by {
        assert forall|k: int| 0 <= k < 6 implies low[i + k] == #[trigger] "<title"@[k] by {
            assert(s[i + k] == "<title"@[k]);
        }
    }
    lemma_find_title(s, 0, i, "<title"@);
    assert forall|k: int| i <= k < gt implies #[trigger] s[k] != '>' by {
        if k < i + 6 {
            assert(s[k] == "<title"@[k - i]);
        } else {
            assert(s[k] == x[k - i - 6]);
        }
    }
    assert(s[gt] == '>');
    lemma_index_at(s, i, gt, '>');
    assert(low.subrange(e, e + 8) =~= "</title>"@) by {
        assert forall|k: int| 0 <= k < 8 implies low[e + k] == #[trigger] "</title>"@[k] by {
            assert(s[e + k] == "</title>"@[k]);
        }
    }
    assert forall|k: int| gt + 1 <= k < e implies #[trigger] s[k] != '<' by {
        assert(s[k] == title[k - gt - 1]);
    }
    lemma_find_title(s, gt + 1, e, "</title>"@);
    assert(s.subrange(gt + 1, e) =~= title);
    let t = trim(title);
    lemma_trim_start(title);
    lemma_trim_end(trim_start(title));
    assert(!t.contains('&')) by {
        if t.contains('&') {
            let k = t.index_of('&');
            let off = title.len() - trim_start(title).len();
            assert(trim_start(title)[k] == '&');
            assert(title[off + k] == '&');
        }
    }
    law_plain_text_is_unchanged(t);
}

proof fn lemma_alt(x: Seq<char>)
    requires
        !x.contains('"'),
    ensures
        attribute("<img alt=\""@ + x + "\">"@, "alt="@) == Some(x),
{
    reveal_strlit("<img alt=\"");
    reveal_strlit("\">");
    reveal_strlit("alt=");
    let tag = "<img alt=\""@ + x + "\">"@;
    let low = lower_all(tag);
    assert(tag[0] == '<' && tag[1] == 'i' && tag[2] == 'm' && tag[3] == 'g' && tag[4] == ' '
        && tag[5] == 'a' && tag[6] == 'l' && tag[7] == 't' && tag[8] == '=' && tag[9] == '"');
    assert(low.subrange(5, 9) =~= "alt="@);
    assert(match_at(low, 5, "alt="@));
    assert forall|i: int| 0 <= i < 5 implies !#[trigger] match_at(low, i, "alt="@) by {
        if match_at(low, i, "alt="@) {
            assert(low.subrange(i, i + 4)[0] == low[i]);
        }
    }
    assert(low[4] == ' ');
    assert(!is_name_char(' '));
    assert(named_from(low, 5, "alt="@) == Some(5int));
    assert(named_from(low, 4, "alt="@) == Some(5int)) by {
        assert(!match_at(low, 4, "alt="@));
    }
    assert(named_from(low, 3, "alt="@) == Some(5int)) by {
        assert(!match_at(low, 3, "alt="@));
    }
    assert(named_from(low, 2, "alt="@) == Some(5int)) by {
        assert(!match_at(low, 2, "alt="@));
    }
    assert(named_from(low, 1, "alt="@) == Some(5int)) by {
        assert(!match_at(low, 1, "alt="@));
    }
    assert(named_from(low, 0, "alt="@) == Some(5int)) by {
        assert(!match_at(low, 0, "alt="@));
    }
    let e = 10 + x.len() as int;
    assert forall|k: int| 10 <= k < e implies #[trigger] tag[k] != '"' by {
        assert(tag[k] == x[k - 10]);
    }
    assert(tag[e] == '"');
    lemma_index_at(tag, 10, e, '"');
    assert(tag.subrange(10, e) =~= x);
}

proof fn lemma_other_start(p: Seq<char>, l: Seq<char>)
    requires
        p.len() > 0,
        l.len() > 0,
        p[0] != l[0],
    ensures
        !p.is_prefix_of(l),
{
    if p.is_prefix_of(l) {
        assert(l.subrange(0, p.len() as int)[0] == l[0]);
    }
}

/// An image is a tag of its own: neither code nor the end of a line.
proof fn lemma_image_tag(a: Seq<char>, x: Seq<char>, b: Seq<char>)
    requires
        !x.contains('>'),
    ensures
        ({
            let low = lower_all(a + "<img alt=\""@ + x + "\">"@ + b);
            &&& code_at(low, a.len() as int) is None
            &&& is_image(low, a.len() as int)
            &&& !breaks_line(low, a.len() as int)
        }),
{
    reveal_strlit("<img alt=\"");
    reveal_strlit("\">");
    reveal_strlit("<img");
    let inside = "<img alt=\""@.skip(1) + x + seq!['"'];
    let s = a + "<img alt=\""@ + x + "\">"@ + b;
    let low = lower_all(s);
    let i = a.len() as int;
    assert(s =~= a + tag_of(inside) + b);
    assert(!inside.contains('>')) by {
        if inside.contains('>') {
            let k = choose|k: int| 0 <= k < inside.len() && inside[k] == '>';
            if 9 <= k < 9 + x.len() {
                assert(x[k - 9] == '>');
            }
        }
    }
    let l = lower_all(inside);
    assert(inside[0] == 'i');
    assert(l[0] == 'i');
    reveal_strlit("script");
    reveal_strlit("style");
    reveal_strlit("noscript");
    reveal_strlit("svg");
    lemma_opens(low, i, a, inside, b, "script"@);
    lemma_opens(low, i, a, inside, b, "style"@);
    lemma_opens(low, i, a, inside, b, "noscript"@);
    lemma_opens(low, i, a, inside, b, "svg"@);
    lemma_breaks(a, inside, b);
    reveal_strlit("p");
    reveal_strlit("br");
    reveal_strlit("div");
    reveal_strlit("li");
    reveal_strlit("tr");
    reveal_strlit("h");
    reveal_strlit("/p");
    reveal_strlit("/div");
    reveal_strlit("/li");
    reveal_strlit("/tr");
    reveal_strlit("/table");
    reveal_strlit("/h");
    lemma_other_start("script"@, l);
    lemma_other_start("style"@, l);
    lemma_other_start("noscript"@, l);
    lemma_other_start("svg"@, l);
    lemma_other_start("p"@, l);
    lemma_other_start("br"@, l);
    lemma_other_start("div"@, l);
    lemma_other_start("li"@, l);
    lemma_other_start("tr"@, l);
    lemma_other_start("h"@, l);
    lemma_other_start("/p"@, l);
    lemma_other_start("/div"@, l);
    lemma_other_start("/li"@, l);
    lemma_other_start("/tr"@, l);
    lemma_other_start("/table"@, l);
    lemma_other_start("/h"@, l);
    assert(s[i] == '<' && s[i + 1] == 'i' && s[i + 2] == 'm' && s[i + 3] == 'g' && s[i + 4]
        == ' ');
    assert(low.subrange(i, i + 4) =~= "<img"@);
}

/// An image stands in the text as the words that describe it, set off by spaces from what
/// stands round it; nothing of the text on either side is lost.
pub proof fn law_an_image_is_its_description(a: Seq<char>, x: Seq<char>, b: Seq<char>)
    requires
        !a.contains('<'),
        !b.contains('<'),
        !x.contains('"'),
        !x.contains('>'),
        trim(x) == x,
        x.len() > 0,
    ensures
        text_from(a + "<img alt=\""@ + x + "\">"@ + b, 0, Seq::empty()) == a + (if a.len() > 0
            && a.last() != ' ' && a.last() != '\n' {
            " "@
        } else {
            ""@
        }) + x + " "@ + b,
{
    reveal_strlit("<img alt=\"");
    reveal_strlit("\">");
    reveal_strlit(" ");
    reveal_strlit("");
    let tag = "<img alt=\""@ + x + "\">"@;
    let s = a + "<img alt=\""@ + x + "\">"@ + b;
    let i = a.len() as int;
    let gt = i + tag.len() - 1;
    assert forall|k: int| 0 <= k < i implies #[trigger] s[k] != '<' by {
        assert(s[k] == a[k]);
    }
    assert(s[i] == '<');
    lemma_text_run(s, 0, i, Seq::empty());
    assert(Seq::<char>::empty() + s.subrange(0, i) =~= a);
    lemma_image_tag(a, x, b);
    assert forall|k: int| i <= k < gt implies #[trigger] s[k] != '>' by {
        if i + 10 <= k < gt - 1 {
            assert(s[k] == x[k - i - 10]);
        }
    }
    assert(s[gt] == '>');
    lemma_index_at(s, i, i, '<');
    lemma_index_at(s, i, gt, '>');
    assert(s.subrange(i, gt + 1) =~= tag);
    lemma_alt(x);
    let next = with_alt(a, tag);
    assert(text_from(s, i, a) == text_from(s, gt + 1, next));
    assert forall|k: int| gt + 1 <= k < s.len() implies #[trigger] s[k] != '<' by {
        assert(s[k] == b[k - gt - 1]);
    }
    lemma_text_run(s, gt + 1, s.len() as int, next);
    assert(s.subrange(gt + 1, s.len() as int) =~= b);
    assert(next + b =~= a + (if a.len() > 0 && a.last() != ' ' && a.last() != '\n' {
        " "@
    } else {
        ""@
    }) + x + " "@ + b);
}

} // verus!
